//! Configuration: the parts that are plain values, with their defaults, where
//! the file is, and how a colour reads.
use vstd::prelude::*;
use crate::text;

verus! {

/// How applications are launched.
#[derive(Debug, Clone, PartialEq, Eq)]
pub struct LaunchConfig {
    /// The command that runs an application in a terminal.
    pub terminal: String,
}

impl Default for LaunchConfig {
    fn default() -> (r: Self)
        ensures
            r.terminal@ == "foot"@,
    {
        LaunchConfig { terminal: text::copy_text("foot") }
    }
}

/// The bar at the top of the screen.
#[derive(Debug, Clone, Copy, PartialEq, Eq)]
pub struct OptionsConfig {
    pub enabled: bool,
    /// Its height, in logical pixels.
    pub height: u32,
    /// How many times finer it is rendered than shown.
    pub render_scale: u32,
}

impl Default for OptionsConfig {
    fn default() -> (r: Self)
        ensures
            r.enabled,
            r.height == 28,
            r.render_scale == 2,
    {
        OptionsConfig { enabled: true, height: 28, render_scale: 2 }
    }
}

/// The size of the card, in logical pixels.
#[derive(Debug, Clone, Copy, PartialEq, Eq)]
pub struct WindowConfig {
    pub width: u32,
    pub height: u32,
    /// How much of the card peeks out while it is docked.
    pub input_bar_height: u32,
    /// The gap below the open card.
    pub bottom_margin: u32,
    /// How many times finer it is rendered than shown.
    pub render_scale: u32,
}

impl Default for WindowConfig {
    fn default() -> (r: Self)
        ensures
            r.width == 720,
            r.height == 680,
            r.input_bar_height == 42,
            r.bottom_margin == 8,
            r.render_scale == 2,
    {
        WindowConfig {
            width: 720,
            height: 680,
            input_bar_height: 42,
            bottom_margin: 8,
            render_scale: 2,
        }
    }
}

/// The curves that a motion can follow.
#[derive(Debug, Clone, Copy, PartialEq, Eq, Structural)]
pub enum CurveKind {
    Spring,
    EaseOutQuart,
    EaseOutCubic,
    EaseInCubic,
}

/// The name of a curve in the configuration file.
pub open spec fn curve_name(kind: CurveKind) -> Seq<char> {
    match kind {
        CurveKind::Spring => "spring"@,
        CurveKind::EaseOutQuart => "ease-out-quart"@,
        CurveKind::EaseOutCubic => "ease-out-cubic"@,
        CurveKind::EaseInCubic => "ease-in-cubic"@,
    }
}

impl CurveKind {
    /// The curve of a name, if it is the name of one.
    pub fn from_name(name: &str) -> (r: Option<CurveKind>)
        ensures
            match r {
                Some(k) => name@ == curve_name(k),
                None => forall|k: CurveKind| name@ != #[trigger] curve_name(k),
            },
    {
        if text::same(name, "spring") {
            Some(CurveKind::Spring)
        } else if text::same(name, "ease-out-quart") {
            Some(CurveKind::EaseOutQuart)
        } else if text::same(name, "ease-out-cubic") {
            Some(CurveKind::EaseOutCubic)
        } else if text::same(name, "ease-in-cubic") {
            Some(CurveKind::EaseInCubic)
        } else {
            None
        }
    }
}

/// The curve of a motion and how long it takes; a spring takes its own time.
#[derive(Debug, Clone, Copy, PartialEq, Eq, Structural)]
pub struct CurveTiming {
    pub kind: CurveKind,
    pub duration_ms: u32,
}

/// The motions of the card and the dock.
#[derive(Debug, Clone, Copy, PartialEq, Eq)]
pub struct AnimationConfig {
    /// The card opens.
    pub open: CurveTiming,
    /// The card closes.
    pub close: CurveTiming,
    /// The dock shows.
    pub dock_reveal: CurveTiming,
    /// The dock hides.
    pub dock_hide: CurveTiming,
    /// How long a box takes to open or close.
    pub group_expand_ms: u32,
}

impl Default for AnimationConfig {
    fn default() -> (r: Self)
        ensures
            r.open == (CurveTiming { kind: CurveKind::Spring, duration_ms: 220 }),
            r.close == (CurveTiming { kind: CurveKind::Spring, duration_ms: 220 }),
            r.dock_reveal == (CurveTiming { kind: CurveKind::EaseOutCubic, duration_ms: 200 }),
            r.dock_hide == (CurveTiming { kind: CurveKind::EaseInCubic, duration_ms: 95 }),
            r.group_expand_ms == 190,
    {
        AnimationConfig {
            open: CurveTiming { kind: CurveKind::Spring, duration_ms: 220 },
            close: CurveTiming { kind: CurveKind::Spring, duration_ms: 220 },
            dock_reveal: CurveTiming { kind: CurveKind::EaseOutCubic, duration_ms: 200 },
            dock_hide: CurveTiming { kind: CurveKind::EaseInCubic, duration_ms: 95 },
            group_expand_ms: 190,
        }
    }
}

/// Pointer and gestures.
#[derive(Debug, Clone, Copy, PartialEq, Eq)]
pub struct InputConfig {
    /// Whether scrolling down opens the card.
    pub natural_scroll: bool,
    /// Whether the dock shows when the pointer touches the screen's edge.
    pub edge_reveal: bool,
    /// The height of the edge that is touched.
    pub edge_reveal_px: u32,
    /// Whether the dock hides when the pointer leaves it.
    pub autohide: bool,
    pub autohide_delay_ms: u32,
    /// Whether the dock hides only from windows.
    pub intellihide: bool,
}

impl Default for InputConfig {
    fn default() -> (r: Self)
        ensures
            r.natural_scroll,
            r.edge_reveal,
            r.edge_reveal_px == 5,
            r.autohide,
            r.autohide_delay_ms == 300,
            r.intellihide,
    {
        InputConfig {
            natural_scroll: true,
            edge_reveal: true,
            edge_reveal_px: 5,
            autohide: true,
            autohide_delay_ms: 300,
            intellihide: true,
        }
    }
}

/// The configuration, as far as it is plain values.
#[derive(Debug, Clone, PartialEq, Eq)]
pub struct Config {
    pub window: WindowConfig,
    pub animation: AnimationConfig,
    pub input: InputConfig,
    pub launch: LaunchConfig,
    pub options: OptionsConfig,
}

impl Default for Config {
    fn default() -> (r: Self)
        ensures
            r.window == (WindowConfig {
                width: 720,
                height: 680,
                input_bar_height: 42,
                bottom_margin: 8,
                render_scale: 2,
            }),
            r.animation == (AnimationConfig {
                open: CurveTiming { kind: CurveKind::Spring, duration_ms: 220 },
                close: CurveTiming { kind: CurveKind::Spring, duration_ms: 220 },
                dock_reveal: CurveTiming { kind: CurveKind::EaseOutCubic, duration_ms: 200 },
                dock_hide: CurveTiming { kind: CurveKind::EaseInCubic, duration_ms: 95 },
                group_expand_ms: 190,
            }),
            r.input == (InputConfig {
                natural_scroll: true,
                edge_reveal: true,
                edge_reveal_px: 5,
                autohide: true,
                autohide_delay_ms: 300,
                intellihide: true,
            }),
            r.launch.terminal@ == "foot"@,
            r.options == (OptionsConfig { enabled: true, height: 28, render_scale: 2 }),
    {
        Config {
            window: WindowConfig::default(),
            animation: AnimationConfig::default(),
            input: InputConfig::default(),
            launch: LaunchConfig::default(),
            options: OptionsConfig::default(),
        }
    }
}

/// Where the configuration file is: below the configuration directory, else
/// below `.config` in the home directory, else below the current one.
pub open spec fn config_path(config_home: Option<Seq<char>>, home: Option<Seq<char>>) -> Seq<char> {
    let base = match config_home {
        Some(c) => c,
        None => match home {
            Some(h) => text::below(h, ".config"@),
            None => "."@,
        },
    };
    text::below(text::below(base, "waverunner"@), "config.toml"@)
}

impl Config {
    /// Where the configuration file is.
    pub fn default_path(config_home: Option<&str>, home: Option<&str>) -> (r: String)
        ensures
            r@ == config_path(
                match config_home {
                    Some(c) => Some(c@),
                    None => None,
                },
                match home {
                    Some(h) => Some(h@),
                    None => None,
                },
            ),
    {
        let base: String = match config_home {
            Some(c) => text::copy_text(c),
            None => match home {
                Some(h) => text::join_path(h, ".config"),
                None => text::copy_text("."),
            },
        };
        text::join_path(&text::join_path(&base, "waverunner"), "config.toml")
    }
}

// ---------------------------------------------------------------------------
// Colours
// ---------------------------------------------------------------------------

/// The value of a hexadecimal digit.
pub open spec fn hex_value(c: char) -> Option<int> {
    if '0' <= c <= '9' {
        Some(c as int - '0' as int)
    } else if 'a' <= c <= 'f' {
        Some(c as int - 'a' as int + 10)
    } else if 'A' <= c <= 'F' {
        Some(c as int - 'A' as int + 10)
    } else {
        None
    }
}

/// The value of two characters, both of them hexadecimal digits.
pub open spec fn hex_byte(a: char, b: char) -> Option<int> {
    match (hex_value(a), hex_value(b)) {
        (Some(x), Some(y)) => Some(16 * x + y),
        _ => None,
    }
}

/// The value of two characters, both of them hexadecimal digits.
fn byte_of(a: char, b: char) -> (r: Option<u8>)
    ensures
        match r {
            Some(v) => hex_byte(a, b) == Some(v as int),
            None => hex_byte(a, b) is None,
        },
{
    match (digit_of(a), digit_of(b)) {
        (Some(x), Some(y)) => Some(16 * x + y),
        _ => None,
    }
}

fn digit_of(c: char) -> (r: Option<u8>)
    ensures
        match r {
            Some(v) => hex_value(c) == Some(v as int) && v < 16,
            None => hex_value(c) is None,
        },
{
    if '0' <= c && c <= '9' {
        Some((c as u32 - 48) as u8)
    } else if 'a' <= c && c <= 'f' {
        Some((c as u32 - 97 + 10) as u8)
    } else if 'A' <= c && c <= 'F' {
        Some((c as u32 - 65 + 10) as u8)
    } else {
        None
    }
}

/// The channels of a colour written as `#rrggbb` or `#rrggbbaa`; a colour
/// without alpha is opaque.
pub open spec fn channels(s: Seq<char>) -> Option<Seq<int>> {
    if s.len() != 7 && s.len() != 9 || s[0] != '#' {
        None
    } else {
        let r = hex_byte(s[1], s[2]);
        let g = hex_byte(s[3], s[4]);
        let b = hex_byte(s[5], s[6]);
        let a = if s.len() == 9 {
            hex_byte(s[7], s[8])
        } else {
            Some(255)
        };
        if r is Some && g is Some && b is Some && a is Some {
            Some(seq![r->Some_0, g->Some_0, b->Some_0, a->Some_0])
        } else {
            None
        }
    }
}

/// The channels of a colour written as `#rrggbb` or `#rrggbbaa`.
pub fn parse_hex_rgba(s: &str) -> (r: Option<[u8; 4]>)
    ensures
        match r {
            Some(c) => channels(s@) == Some(
                seq![c@[0] as int, c@[1] as int, c@[2] as int, c@[3] as int],
            ),
            None => channels(s@) is None,
        },
{
    let v = text::chars_of(s);
    if v.len() != 7 && v.len() != 9 {
        return None;
    }
    if v[0] != '#' {
        return None;
    }
    let r: u8 = match byte_of(v[1], v[2]) {
        Some(x) => x,
        None => return None,
    };
    let g: u8 = match byte_of(v[3], v[4]) {
        Some(x) => x,
        None => return None,
    };
    let b: u8 = match byte_of(v[5], v[6]) {
        Some(x) => x,
        None => return None,
    };
    let a: u8 = if v.len() == 9 {
        match byte_of(v[7], v[8]) {
            Some(x) => x,
            None => return None,
        }
    } else {
        255
    };
    Some([r, g, b, a])
}

/// What a hexadecimal digit is worth, small or capital; no other character is one.
pub proof fn law_what_a_hexadecimal_digit_is_worth(c: char)
    ensures
        48 <= c as int <= 57 ==> hex_value(c) == Some(c as int - 48),
        97 <= c as int <= 102 ==> hex_value(c) == Some(c as int - 87),
        65 <= c as int <= 70 ==> hex_value(c) == Some(c as int - 55),
        !(48 <= c as int <= 57) && !(97 <= c as int <= 102) && !(65 <= c as int <= 70)
            ==> hex_value(c) is None,
{
}

/// A colour is a number sign and two digits each for red, green and blue, the first of
/// them sixteen times the second, and two more for how opaque it is; without those it
/// is opaque. Anything else is no colour.
pub proof fn law_how_a_colour_reads(s: Seq<char>)
    ensures
        s.len() != 7 && s.len() != 9 ==> channels(s) is None,
        s.len() > 0 && s[0] != '#' ==> channels(s) is None,
        (exists|i: int| 1 <= i < s.len() && hex_value(#[trigger] s[i]) is None) ==> channels(s)
            is None,
        (s.len() == 7 || s.len() == 9) && s[0] == '#' && (forall|i: int|
            1 <= i < s.len() ==> hex_value(#[trigger] s[i]) is Some) ==> {
            let c = channels(s)->Some_0;
            &&& channels(s) is Some
            &&& c.len() == 4
            &&& c[0] == 16 * hex_value(s[1])->Some_0 + hex_value(s[2])->Some_0
            &&& c[1] == 16 * hex_value(s[3])->Some_0 + hex_value(s[4])->Some_0
            &&& c[2] == 16 * hex_value(s[5])->Some_0 + hex_value(s[6])->Some_0
            &&& s.len() == 7 ==> c[3] == 255
            &&& s.len() == 9 ==> c[3] == 16 * hex_value(s[7])->Some_0 + hex_value(s[8])->Some_0
        },
{
    if exists|i: int| 1 <= i < s.len() && hex_value(#[trigger] s[i]) is None {
        let i = choose|i: int| 1 <= i < s.len() && hex_value(#[trigger] s[i]) is None;
        if s.len() == 7 || s.len() == 9 {
            assert(i == 1 || i == 2 || i == 3 || i == 4 || i == 5 || i == 6 || i == 7 || i == 8);
        }
    }
}

/// Every curve has the name that the configuration file knows it by, and no two have
/// the same.
pub proof fn law_curves_are_told_apart_by_name(a: CurveKind, b: CurveKind)
    ensures
        curve_name(CurveKind::Spring) == "spring"@,
        curve_name(CurveKind::EaseOutQuart) == "ease-out-quart"@,
        curve_name(CurveKind::EaseOutCubic) == "ease-out-cubic"@,
        curve_name(CurveKind::EaseInCubic) == "ease-in-cubic"@,
        curve_name(a) == curve_name(b) ==> a == b,
{
    reveal_strlit("spring");
    reveal_strlit("ease-out-quart");
    reveal_strlit("ease-out-cubic");
    reveal_strlit("ease-in-cubic");
    assert("spring"@.len() == 6 && "ease-in-cubic"@.len() == 13);
    assert("ease-out-quart"@[9] == 'q' && "ease-out-cubic"@[9] == 'c');
    assert("ease-out-quart"@.len() == 14 && "ease-out-cubic"@.len() == 14);
}

/// The configuration file is in the configuration directory, else in `.config` of the
/// home directory, else below the current one.
pub proof fn law_where_the_configuration_is(base: Seq<char>, home: Option<Seq<char>>)
    requires
        base.len() > 0,
        base.last() != '/',
    ensures
        config_path(Some(base), home) == base + "/waverunner/config.toml"@,
        config_path(None, Some(base)) == base + "/.config/waverunner/config.toml"@,
        config_path(None, None) == "./waverunner/config.toml"@,
{
    reveal_strlit("/waverunner/config.toml");
    reveal_strlit("/.config/waverunner/config.toml");
    reveal_strlit("./waverunner/config.toml");
    reveal_strlit("waverunner");
    reveal_strlit("config.toml");
    reveal_strlit(".config");
    reveal_strlit(".");
    lemma_config_below(base);
    let mid = base.push('/') + ".config"@;
    assert(text::below(base, ".config"@) == mid);
    assert(mid.last() == 'g');
    lemma_config_below(mid);
    assert(mid + "/waverunner/config.toml"@ == base + "/.config/waverunner/config.toml"@);
    lemma_config_below("."@);
    assert("."@ + "/waverunner/config.toml"@ == "./waverunner/config.toml"@);
}

proof fn lemma_config_below(base: Seq<char>)
    requires
        base.len() > 0,
        base.last() != '/',
    ensures
        text::below(text::below(base, "waverunner"@), "config.toml"@) == base
            + "/waverunner/config.toml"@,
{
    reveal_strlit("/waverunner/config.toml");
    reveal_strlit("waverunner");
    reveal_strlit("config.toml");
    let mid = base.push('/') + "waverunner"@;
    assert(text::below(base, "waverunner"@) == mid);
    assert(mid.last() == 'r');
    assert(mid.push('/') + "config.toml"@ == base + "/waverunner/config.toml"@);
}

} // verus!
