//! The text of the user interface in Chinese and English: every string
//! the front end shows goes through `Lang::t`.
use vstd::prelude::*;
use crate::types::Speed;

verus! {

/// Interface language.
#[derive(Clone, Copy, PartialEq, Eq, Structural, Debug)]
pub enum Lang {
    Zh,
    En,
}

/// `c` is the letter `lower` in either case.
pub open spec fn ci_eq(c: char, lower: char, upper: char) -> bool {
    c == lower || c == upper
}

/// The language a locale-like code names, ignoring case: codes starting
/// with `zh` give Chinese, codes starting with `en` English; others none.
pub open spec fn spec_lang_code(s: Seq<char>) -> Option<Lang> {
    if s.len() >= 2 && ci_eq(s[0], 'z', 'Z') && ci_eq(s[1], 'h', 'H') {
        Some(Lang::Zh)
    } else if s.len() >= 2 && ci_eq(s[0], 'e', 'E') && ci_eq(s[1], 'n', 'N') {
        Some(Lang::En)
    } else {
        None
    }
}

impl Lang {
    /// `from_code`: the language of a code such as `zh_CN` or
    /// `en_US.UTF-8` (see `spec_lang_code`).
    pub fn from_code(s: &str) -> (r: Option<Lang>)
        ensures
            r == spec_lang_code(s@),
    {
        let n = s.unicode_len();
        if n < 2 {
            return None;
        }
        let c0 = s.get_char(0);
        let c1 = s.get_char(1);
        if (c0 == 'z' || c0 == 'Z') && (c1 == 'h' || c1 == 'H') {
            Some(Lang::Zh)
        } else if (c0 == 'e' || c0 == 'E') && (c1 == 'n' || c1 == 'N') {
            Some(Lang::En)
        } else {
            None
        }
    }

    /// The language to use: the one given on the command line if any,
    /// else the first of the environment values `cow_lang`, `lc_all`,
    /// `lang` (in that order) that names one, else Chinese.
    pub fn detect_from(cli: Option<Lang>, cow_lang: Option<&str>, lc_all: Option<&str>, lang: Option<&str>) -> (r: Lang)
        ensures
            r == (match cli {
                Some(l) => l,
                None => detect_env(cow_lang, lc_all, lang),
            }),
    {
        if let Some(l) = cli {
            return l;
        }
        if let Some(v) = cow_lang {
            if let Some(l) = Self::from_code(v) {
                return l;
            }
        }
        if let Some(v) = lc_all {
            if let Some(l) = Self::from_code(v) {
                return l;
            }
        }
        if let Some(v) = lang {
            if let Some(l) = Self::from_code(v) {
                return l;
            }
        }
        Lang::Zh
    }
}

/// The language the environment values name (see `Lang::detect_from`).
pub open spec fn detect_env(cow_lang: Option<&str>, lc_all: Option<&str>, lang: Option<&str>) -> Lang {
    if cow_lang is Some && spec_lang_code(cow_lang->0@) is Some {
        spec_lang_code(cow_lang->0@)->0
    } else if lc_all is Some && spec_lang_code(lc_all->0@) is Some {
        spec_lang_code(lc_all->0@)->0
    } else if lang is Some && spec_lang_code(lang->0@) is Some {
        spec_lang_code(lang->0@)->0
    } else {
        Lang::Zh
    }
}

/// Speed label, kept apart from `Speed` so that the text table needs no
/// game state.
#[derive(Clone, Copy, PartialEq, Eq, Structural, Debug)]
pub enum SpeedKind {
    Pause,
    Slowest,
    Slower,
    Slow,
    Normal,
    Fast,
    Faster,
    Fastest,
}

/// The label of a speed.
pub open spec fn speed_kind(s: Speed) -> SpeedKind {
    match s {
        Speed::Pause => SpeedKind::Pause,
        Speed::Slowest => SpeedKind::Slowest,
        Speed::Slower => SpeedKind::Slower,
        Speed::Slow => SpeedKind::Slow,
        Speed::Normal => SpeedKind::Normal,
        Speed::Fast => SpeedKind::Fast,
        Speed::Faster => SpeedKind::Faster,
        Speed::Fastest => SpeedKind::Fastest,
    }
}

impl From<Speed> for SpeedKind {
    fn from(s: Speed) -> (r: SpeedKind) {
        match s {
            Speed::Pause => SpeedKind::Pause,
            Speed::Slowest => SpeedKind::Slowest,
            Speed::Slower => SpeedKind::Slower,
            Speed::Slow => SpeedKind::Slow,
            Speed::Normal => SpeedKind::Normal,
            Speed::Fast => SpeedKind::Fast,
            Speed::Faster => SpeedKind::Faster,
            Speed::Fastest => SpeedKind::Fastest,
        }
    }
}

impl vstd::std_specs::convert::FromSpecImpl<Speed> for SpeedKind {
    open spec fn obeys_from_spec() -> bool {
        true
    }

    open spec fn from_spec(s: Speed) -> SpeedKind {
        speed_kind(s)
    }
}

/// Every user-visible string.
#[derive(Clone, Copy, Debug)]
pub enum TextKey {
    /// An empty slot; the empty string in both languages.
    Noop,
    AppTitle,
    AppSubtitle,
    WrittenBy,
    CmdLineHeading,
    MapGenWait,
    RandomSeedWas(u32),
    MultiplayerUnimplemented,
    LabelGold,
    LabelPrices,
    LabelSpeed,
    LabelDate,
    LabelPopulationAtCursor,
    SpeedName(SpeedKind),
    HelpAddRemoveFlag,
    HelpBuild,
    HelpClearAllFlags,
    HelpClearHalfFlags,
    HelpSlowDown,
    HelpSpeedUp,
    HelpPause,
    HelpQuit,
    HelpFlagKey,
    HelpBuildKey,
    HelpClearAllKey,
    HelpClearHalfKey,
    HelpSlowDownKey,
    HelpSpeedUpKey,
    HelpPauseKey,
    HelpQuitKey,
    YouWon,
    YouLost,
    QuitPrompt,
    QuitHint,
    ErrorTui,
    Version(&'static str),
}

/// The decimal digit `d`.
pub open spec fn digit_char(d: int) -> char {
    if d == 0 { '0' } else if d == 1 { '1' } else if d == 2 { '2' } else if d == 3 { '3' } else if d == 4 { '4' }
    else if d == 5 { '5' } else if d == 6 { '6' } else if d == 7 { '7' } else if d == 8 { '8' } else { '9' }
}

/// The decimal notation of `n`, without leading zeros.
pub open spec fn decimal(n: nat) -> Seq<char>
    decreases n,
{
    if n < 10 {
        seq![digit_char(n as int)]
    } else {
        decimal(n / 10).push(digit_char((n % 10) as int))
    }
}

/// The name of a speed in language `l`.
pub open spec fn speed_text(l: Lang, sk: SpeedKind) -> Seq<char> {
    match l {
        Lang::Zh => match sk {
            SpeedKind::Pause => "暂停"@,
            SpeedKind::Slowest => "最慢"@,
            SpeedKind::Slower => "慢"@,
            SpeedKind::Slow => "较慢"@,
            SpeedKind::Normal => "正常"@,
            SpeedKind::Fast => "快"@,
            SpeedKind::Faster => "较快"@,
            SpeedKind::Fastest => "最快"@,
        },
        Lang::En => match sk {
            SpeedKind::Pause => "Pause"@,
            SpeedKind::Slowest => "Slowest"@,
            SpeedKind::Slower => "Slower"@,
            SpeedKind::Slow => "Slow"@,
            SpeedKind::Normal => "Normal"@,
            SpeedKind::Fast => "Fast"@,
            SpeedKind::Faster => "Faster"@,
            SpeedKind::Fastest => "Fastest"@,
        },
    }
}

/// The text of `k` in language `l`.
pub open spec fn text(l: Lang, k: TextKey) -> Seq<char> {
    match k {
        TextKey::Noop => ""@,
        TextKey::AppTitle => if l == Lang::Zh { "Curse of War"@ } else { "Curse of War"@ },
        TextKey::AppSubtitle => if l == Lang::Zh { "一款 Linux 终端上的快节奏即时策略游戏。"@ } else { "A fast-paced real-time strategy game for the Linux terminal."@ },
        TextKey::WrittenBy => if l == Lang::Zh { "作者：Alexey Nikolaev，2013。"@ } else { "Written by Alexey Nikolaev in 2013."@ },
        TextKey::CmdLineHeading => if l == Lang::Zh { "  命令行参数："@ } else { "  Command line arguments:"@ },
        TextKey::MapGenWait => if l == Lang::Zh { "正在生成地图，请稍候……"@ } else { "Map is generated. Please wait."@ },
        TextKey::MultiplayerUnimplemented => if l == Lang::Zh { "多人联网模式尚未在本版本实现，请使用单机模式。"@ } else { "Multiplayer is not implemented in this version yet. Please play single-player."@ },
        TextKey::LabelGold => if l == Lang::Zh { "金币:"@ } else { "Gold:"@ },
        TextKey::LabelPrices => if l == Lang::Zh { "价格: 160, 240, 320."@ } else { "Prices: 160, 240, 320."@ },
        TextKey::LabelSpeed => if l == Lang::Zh { "速度:"@ } else { "Speed:"@ },
        TextKey::LabelDate => if l == Lang::Zh { "日期:"@ } else { "Date:"@ },
        TextKey::LabelPopulationAtCursor => if l == Lang::Zh { "光标处人口:"@ } else { "Population at the cursor:"@ },
        TextKey::HelpFlagKey => if l == Lang::Zh { "[空格]"@ } else { "[Space]"@ },
        TextKey::HelpAddRemoveFlag => if l == Lang::Zh { "增/删旗"@ } else { "add/remove a flag"@ },
        TextKey::HelpBuildKey => if l == Lang::Zh { "[R/V]"@ } else { "[R or V]"@ },
        TextKey::HelpBuild => if l == Lang::Zh { "建造"@ } else { "build"@ },
        TextKey::HelpClearAllKey => if l == Lang::Zh { "[X]"@ } else { "[X]"@ },
        TextKey::HelpClearAllFlags => if l == Lang::Zh { "清除所有旗"@ } else { "remove all flags"@ },
        TextKey::HelpClearHalfKey => if l == Lang::Zh { "[C]"@ } else { "[C]"@ },
        TextKey::HelpClearHalfFlags => if l == Lang::Zh { "清除一半旗"@ } else { "remove 50% of flags"@ },
        TextKey::HelpSlowDownKey => if l == Lang::Zh { "[S]"@ } else { "[S]"@ },
        TextKey::HelpSlowDown => if l == Lang::Zh { "减速"@ } else { "slow down"@ },
        TextKey::HelpSpeedUpKey => if l == Lang::Zh { "[F]"@ } else { "[F]"@ },
        TextKey::HelpSpeedUp => if l == Lang::Zh { "加速"@ } else { "speed up"@ },
        TextKey::HelpPauseKey => if l == Lang::Zh { "[P]"@ } else { "[P]"@ },
        TextKey::HelpPause => if l == Lang::Zh { "暂停"@ } else { "pause"@ },
        TextKey::HelpQuitKey => if l == Lang::Zh { "[Q]"@ } else { "[Q]"@ },
        TextKey::HelpQuit => if l == Lang::Zh { "退出"@ } else { "quit"@ },
        TextKey::YouWon => if l == Lang::Zh { "你胜利了！"@ } else { "You are victorious!"@ },
        TextKey::YouLost => if l == Lang::Zh { "你失败了！"@ } else { "You are defeated!"@ },
        TextKey::QuitPrompt => if l == Lang::Zh { "   退出? [Y/N]   "@ } else { "   Quit? [Y/N]   "@ },
        TextKey::QuitHint => if l == Lang::Zh { "        [Q/Esc]  "@ } else { "        [Q/Esc]  "@ },
        TextKey::ErrorTui => if l == Lang::Zh { "终端界面错误:"@ } else { "TUI error:"@ },
        TextKey::RandomSeedWas(s) => (if l == Lang::Zh { "随机种子为 "@ } else { "Random seed was "@ }) + decimal(s as nat),
        TextKey::SpeedName(sk) => speed_text(l, sk),
        TextKey::Version(v) => "curseofwar "@ + v@,
    }
}

/// The digit `d` as a string.
fn digit_str(d: u32) -> (r: &'static str)
    requires
        d < 10,
    ensures
        r@ == seq![digit_char(d as int)],
{
    proof {
        reveal_strlit("0");
        reveal_strlit("1");
        reveal_strlit("2");
        reveal_strlit("3");
        reveal_strlit("4");
        reveal_strlit("5");
        reveal_strlit("6");
        reveal_strlit("7");
        reveal_strlit("8");
        reveal_strlit("9");
    }
    if d == 0 { "0" } else if d == 1 { "1" } else if d == 2 { "2" } else if d == 3 { "3" } else if d == 4 { "4" }
    else if d == 5 { "5" } else if d == 6 { "6" } else if d == 7 { "7" } else if d == 8 { "8" } else { "9" }
}

/// The decimal notation of `n`.
pub fn decimal_string(n: u32) -> (r: String)
    ensures
        r@ == decimal(n as nat),
    decreases n,
{
    if n < 10 {
        let r = String::from_str(digit_str(n));
        r
    } else {
        let mut r = decimal_string(n / 10);
        r.append(digit_str(n % 10));
        r
    }
}

/// The name of a speed in language `l`.
fn speed_name(l: Lang, sk: SpeedKind) -> (r: &'static str)
    ensures
        r@ == speed_text(l, sk),
{
    match l {
        Lang::Zh => match sk {
            SpeedKind::Pause => "暂停",
            SpeedKind::Slowest => "最慢",
            SpeedKind::Slower => "慢",
            SpeedKind::Slow => "较慢",
            SpeedKind::Normal => "正常",
            SpeedKind::Fast => "快",
            SpeedKind::Faster => "较快",
            SpeedKind::Fastest => "最快",
        },
        Lang::En => match sk {
            SpeedKind::Pause => "Pause",
            SpeedKind::Slowest => "Slowest",
            SpeedKind::Slower => "Slower",
            SpeedKind::Slow => "Slow",
            SpeedKind::Normal => "Normal",
            SpeedKind::Fast => "Fast",
            SpeedKind::Faster => "Faster",
            SpeedKind::Fastest => "Fastest",
        },
    }
}

impl Lang {
    /// `t`: the text of `key` in this language (see `text`).
    pub fn t(&self, key: TextKey) -> (r: String)
        ensures
            r@ == text(*self, key),
    {
        let zh = *self == Lang::Zh;
        match key {
            TextKey::Noop => String::from_str(""),
            TextKey::AppTitle => String::from_str(if zh { "Curse of War" } else { "Curse of War" }),
            TextKey::AppSubtitle => String::from_str(if zh { "一款 Linux 终端上的快节奏即时策略游戏。" } else { "A fast-paced real-time strategy game for the Linux terminal." }),
            TextKey::WrittenBy => String::from_str(if zh { "作者：Alexey Nikolaev，2013。" } else { "Written by Alexey Nikolaev in 2013." }),
            TextKey::CmdLineHeading => String::from_str(if zh { "  命令行参数：" } else { "  Command line arguments:" }),
            TextKey::MapGenWait => String::from_str(if zh { "正在生成地图，请稍候……" } else { "Map is generated. Please wait." }),
            TextKey::MultiplayerUnimplemented => String::from_str(if zh { "多人联网模式尚未在本版本实现，请使用单机模式。" } else { "Multiplayer is not implemented in this version yet. Please play single-player." }),
            TextKey::LabelGold => String::from_str(if zh { "金币:" } else { "Gold:" }),
            TextKey::LabelPrices => String::from_str(if zh { "价格: 160, 240, 320." } else { "Prices: 160, 240, 320." }),
            TextKey::LabelSpeed => String::from_str(if zh { "速度:" } else { "Speed:" }),
            TextKey::LabelDate => String::from_str(if zh { "日期:" } else { "Date:" }),
            TextKey::LabelPopulationAtCursor => String::from_str(if zh { "光标处人口:" } else { "Population at the cursor:" }),
            TextKey::HelpFlagKey => String::from_str(if zh { "[空格]" } else { "[Space]" }),
            TextKey::HelpAddRemoveFlag => String::from_str(if zh { "增/删旗" } else { "add/remove a flag" }),
            TextKey::HelpBuildKey => String::from_str(if zh { "[R/V]" } else { "[R or V]" }),
            TextKey::HelpBuild => String::from_str(if zh { "建造" } else { "build" }),
            TextKey::HelpClearAllKey => String::from_str(if zh { "[X]" } else { "[X]" }),
            TextKey::HelpClearAllFlags => String::from_str(if zh { "清除所有旗" } else { "remove all flags" }),
            TextKey::HelpClearHalfKey => String::from_str(if zh { "[C]" } else { "[C]" }),
            TextKey::HelpClearHalfFlags => String::from_str(if zh { "清除一半旗" } else { "remove 50% of flags" }),
            TextKey::HelpSlowDownKey => String::from_str(if zh { "[S]" } else { "[S]" }),
            TextKey::HelpSlowDown => String::from_str(if zh { "减速" } else { "slow down" }),
            TextKey::HelpSpeedUpKey => String::from_str(if zh { "[F]" } else { "[F]" }),
            TextKey::HelpSpeedUp => String::from_str(if zh { "加速" } else { "speed up" }),
            TextKey::HelpPauseKey => String::from_str(if zh { "[P]" } else { "[P]" }),
            TextKey::HelpPause => String::from_str(if zh { "暂停" } else { "pause" }),
            TextKey::HelpQuitKey => String::from_str(if zh { "[Q]" } else { "[Q]" }),
            TextKey::HelpQuit => String::from_str(if zh { "退出" } else { "quit" }),
            TextKey::YouWon => String::from_str(if zh { "你胜利了！" } else { "You are victorious!" }),
            TextKey::YouLost => String::from_str(if zh { "你失败了！" } else { "You are defeated!" }),
            TextKey::QuitPrompt => String::from_str(if zh { "   退出? [Y/N]   " } else { "   Quit? [Y/N]   " }),
            TextKey::QuitHint => String::from_str(if zh { "        [Q/Esc]  " } else { "        [Q/Esc]  " }),
            TextKey::ErrorTui => String::from_str(if zh { "终端界面错误:" } else { "TUI error:" }),
            TextKey::RandomSeedWas(s) => {
                let mut r = String::from_str(if zh { "随机种子为 " } else { "Random seed was " });
                let d = decimal_string(s);
                r.append(d.as_str());
                r
            },
            TextKey::SpeedName(sk) => String::from_str(speed_name(*self, sk)),
            TextKey::Version(v) => {
                let mut r = String::from_str("curseofwar ");
                r.append(v);
                r
            },
        }
    }
}

} // verus!
