//! Command-line options: what each option's text means, which
//! combinations are refused, and the game options they give.
use vstd::prelude::*;
use crate::ai::Difficulty;
use crate::i18n::{spec_lang_code, Lang};
use crate::state::GameOptions;
use crate::types::{spec_avlbl_loc_num, Shape, Speed};

verus! {

/// Version shown by `-v`.
pub const VERSION: &'static str = "0.1.0";

/// Default map width.
pub const DEFAULT_W: usize = 21;

/// Default map height.
pub const DEFAULT_H: usize = 21;

/// Smallest map width or height the options accept.
pub const MIN_DIM: usize = 14;

/// Largest map width the options accept.
pub const MAX_DIM_W: usize = 40;

/// Largest map height the options accept.
pub const MAX_DIM_H: usize = 29;

/// Options read from the command line.
pub struct CliOptions {
    /// `-r`: absolutely random initial conditions.
    pub keep_random: bool,
    /// `-T`: show the timeline.
    pub timeline: bool,
    pub w: Option<usize>,
    pub h: Option<usize>,
    pub inequality: Option<i32>,
    pub loc_num: Option<usize>,
    pub conditions: Option<i32>,
    pub map_seed: Option<u32>,
    pub dif: Option<String>,
    pub speed: Option<String>,
    pub shape: Option<String>,
    pub multiplayer: MultiplayerOptions,
}

/// The multiplayer options, which are read but not supported.
pub struct MultiplayerOptions {
    pub clients_num: Option<usize>,
    pub server_port: Option<String>,
    pub server_addr: Option<String>,
    pub client_port: Option<String>,
}

impl Default for MultiplayerOptions {
    /// No multiplayer option given.
    fn default() -> (r: Self)
        ensures
            r.clients_num is None,
            r.server_port is None,
            r.server_addr is None,
            r.client_port is None,
    {
        MultiplayerOptions { clients_num: None, server_port: None, server_addr: None, client_port: None }
    }
}

impl CliOptions {
    /// Some multiplayer option was given.
    pub fn multiplayers_set(&self) -> (r: bool)
        ensures
            r == (self.multiplayer.clients_num is Some || self.multiplayer.server_port is Some
                || self.multiplayer.server_addr is Some || self.multiplayer.client_port is Some),
    {
        self.multiplayer.clients_num.is_some() || self.multiplayer.server_port.is_some()
            || self.multiplayer.server_addr.is_some() || self.multiplayer.client_port.is_some()
    }
}

/// `c` is an ASCII decimal digit.
pub open spec fn is_digit(c: char) -> bool {
    '0' <= c && c <= '9'
}

/// All of `s` are digits.
pub open spec fn all_digits(s: Seq<char>) -> bool {
    forall|k: int| 0 <= k < s.len() ==> is_digit(#[trigger] s[k])
}

/// The value of the digits `s`.
pub open spec fn digits_val(s: Seq<char>) -> int
    decreases s.len(),
{
    if s.len() == 0 {
        0
    } else {
        digits_val(s.drop_last()) * 10 + (s.last() as int - '0' as int)
    }
}

/// The integer `s` writes: an optional sign (`+`, or `-` when `signed`)
/// followed by at least one digit and nothing else.
pub open spec fn int_syntax(s: Seq<char>, signed: bool) -> Option<int> {
    if s.len() >= 2 && s[0] == '+' && all_digits(s.skip(1)) {
        Some(digits_val(s.skip(1)))
    } else if s.len() >= 2 && signed && s[0] == '-' && all_digits(s.skip(1)) {
        Some(-digits_val(s.skip(1)))
    } else if s.len() >= 1 && all_digits(s) {
        Some(digits_val(s))
    } else {
        None
    }
}

/// `s` read as an integer of a type spanning `lo..=hi`: none when the
/// syntax is wrong or the value out of range.
pub open spec fn parsed_int(s: Seq<char>, signed: bool, lo: int, hi: int) -> Option<int> {
    match int_syntax(s, signed) {
        Some(v) => if lo <= v <= hi { Some(v) } else { None },
        None => None,
    }
}

proof fn lemma_digits_val_nonneg(s: Seq<char>)
    requires
        all_digits(s),
    ensures
        digits_val(s) >= 0,
    decreases s.len(),
{
    if s.len() > 0 {
        lemma_digits_val_nonneg(s.drop_last());
    }
}

/// The value of all-digit text is at least that of any of its prefixes.
proof fn lemma_digits_val_prefix(s: Seq<char>, k: int)
    requires
        all_digits(s),
        0 <= k <= s.len(),
    ensures
        digits_val(s.take(k)) <= digits_val(s),
    decreases s.len() - k,
{
    if k < s.len() {
        lemma_digits_val_prefix(s, k + 1);
        assert(s.take(k + 1).drop_last() =~= s.take(k));
        lemma_digits_val_nonneg(s.take(k));
    } else {
        assert(s.take(k) =~= s);
    }
}

/// Reads the digits `s[from..]` into a value, giving up (none) at the first
/// non-digit or once the value passes `limit`.
fn read_digits(s: &str, from: usize, limit: u128) -> (r: Option<u128>)
    requires
        from <= s@.len(),
        limit <= 0x1_0000_0000_0000_0000,
    ensures
        match r {
            Some(v) => all_digits(s@.skip(from as int)) && v == digits_val(s@.skip(from as int)) && v <= limit,
            None => !all_digits(s@.skip(from as int)) || digits_val(s@.skip(from as int)) > limit,
        },
{
    let n = s.unicode_len();
    let ghost t = s@.skip(from as int);
    let mut acc: u128 = 0;
    let mut k: usize = from;
    while k < n
        invariant
            from <= k <= n,
            n == s@.len(),
            t == s@.skip(from as int),
            limit <= 0x1_0000_0000_0000_0000,
            all_digits(t.take(k - from)),
            acc == digits_val(t.take(k - from)),
            acc <= limit,
        decreases n - k,
    {
        let c = s.get_char(k);
        proof {
            assert(t.take(k + 1 - from).drop_last() =~= t.take(k - from));
            assert(t[k - from] == c);
        }
        if !('0' <= c && c <= '9') {
            proof {
                assert(!is_digit(t[k - from]));
            }
            return None;
        }
        let d: u128 = (c as u32 - '0' as u32) as u128;
        let next: u128 = acc * 10 + d;
        if next > limit {
            proof {
                assert(all_digits(t.take(k + 1 - from)));
                if all_digits(t) {
                    lemma_digits_val_prefix(t, k + 1 - from);
                }
            }
            return None;
        }
        acc = next;
        k += 1;
    }
    proof {
        assert(t.take(k - from) =~= t);
    }
    Some(acc)
}

/// Reads `s` as an integer of a type spanning `lo..=hi` (see
/// `parsed_int`), as the standard integer parsing does.
fn parse_int(s: &str, signed: bool, lo: i128, hi: i128) -> (r: Option<i128>)
    requires
        lo <= 0 <= hi,
        hi <= 0x1_0000_0000_0000_0000,
        -0x1_0000_0000_0000_0000 <= lo,
    ensures
        match r {
            Some(v) => parsed_int(s@, signed, lo as int, hi as int) == Some(v as int),
            None => parsed_int(s@, signed, lo as int, hi as int) is None,
        },
{
    let n = s.unicode_len();
    if n == 0 {
        return None;
    }
    let c = s.get_char(0);
    if c == '+' || (signed && c == '-') {
        if n < 2 {
            proof {
                if all_digits(s@) {
                    assert(is_digit(s@[0]));
                }
            }
            return None;
        }
        let neg = c == '-';
        let limit: u128 = if neg { (-lo) as u128 } else { hi as u128 };
        match read_digits(s, 1, limit) {
            Some(v) => {
                if neg { Some(-(v as i128)) } else { Some(v as i128) }
            },
            None => {
                proof {
                    if all_digits(s@) {
                        assert(is_digit(s@[0]));
                    }
                }
                None
            },
        }
    } else {
        proof { assert(s@.skip(0) =~= s@); }
        match read_digits(s, 0, hi as u128) {
            Some(v) => Some(v as i128),
            None => {
                proof {
                    if all_digits(s@) {
                        lemma_digits_val_nonneg(s@);
                    }
                }
                None
            },
        }
    }
}

/// The text read as an unsigned integer.
pub fn parse_usize(s: &str) -> (r: Option<usize>)
    ensures
        match r {
            Some(v) => parsed_int(s@, false, 0, usize::MAX as int) == Some(v as int),
            None => parsed_int(s@, false, 0, usize::MAX as int) is None,
        },
{
    match parse_int(s, false, 0, usize::MAX as i128) {
        Some(v) => Some(v as usize),
        None => None,
    }
}

/// The text read as a 32-bit signed integer.
pub fn parse_i32(s: &str) -> (r: Option<i32>)
    ensures
        match r {
            Some(v) => parsed_int(s@, true, i32::MIN as int, i32::MAX as int) == Some(v as int),
            None => parsed_int(s@, true, i32::MIN as int, i32::MAX as int) is None,
        },
{
    match parse_int(s, true, i32::MIN as i128, i32::MAX as i128) {
        Some(v) => Some(v as i32),
        None => None,
    }
}

/// The text read as a 64-bit signed integer.
pub fn parse_i64(s: &str) -> (r: Option<i64>)
    ensures
        match r {
            Some(v) => parsed_int(s@, true, i64::MIN as int, i64::MAX as int) == Some(v as int),
            None => parsed_int(s@, true, i64::MIN as int, i64::MAX as int) is None,
        },
{
    match parse_int(s, true, i64::MIN as i128, i64::MAX as i128) {
        Some(v) => Some(v as i64),
        None => None,
    }
}

/// `parse_bounded_usize`: the text read as an unsigned integer (see
/// `parsed_int`) and clamped into `lo..=hi`; none when there is no text
/// or it does not read.
pub fn parse_bounded_usize(s: Option<String>, lo: usize, hi: usize) -> (r: Option<usize>)
    requires
        lo <= hi,
    ensures
        r == (match s {
            Some(t) => match parsed_int(t@, false, 0, usize::MAX as int) {
                Some(v) => Some((if v < lo { lo as int } else if v > hi { hi as int } else { v }) as usize),
                None => None,
            },
            None => None,
        }),
{
    match s {
        Some(t) => match parse_usize(t.as_str()) {
            Some(v) => Some(if v < lo { lo } else if v > hi { hi } else { v }),
            None => None,
        },
        None => None,
    }
}

/// `parse_lang`: the language a `--lang` value names (see
/// `spec_lang_code`).
pub fn parse_lang(s: &str) -> (r: Option<Lang>)
    ensures
        r == spec_lang_code(s@),
{
    Lang::from_code(s)
}

/// `s` and `t` are the same text.
pub fn str_eq(s: &str, t: &str) -> (r: bool)
    ensures
        r == (s@ == t@),
{
    let n = s.unicode_len();
    let m = t.unicode_len();
    if n != m {
        return false;
    }
    let mut k: usize = 0;
    while k < n
        invariant
            k <= n,
            n == s@.len(),
            m == t@.len(),
            n == m,
            s@.take(k as int) == t@.take(k as int),
        decreases n - k,
    {
        if s.get_char(k) != t.get_char(k) {
            proof { assert(s@[k as int] != t@[k as int]); }
            return false;
        }
        proof {
            assert(s@.take(k + 1) =~= s@.take(k as int).push(s@[k as int]));
            assert(t@.take(k + 1) =~= t@.take(k as int).push(t@[k as int]));
        }
        k += 1;
    }
    proof {
        assert(s@.take(n as int) =~= s@);
        assert(t@.take(n as int) =~= t@);
    }
    true
}

/// `s` starts with `p`.
pub fn starts_with(s: &str, p: &str) -> (r: bool)
    ensures
        r == (p@.len() <= s@.len() && s@.take(p@.len() as int) == p@),
{
    let n = s.unicode_len();
    let m = p.unicode_len();
    if m > n {
        return false;
    }
    let mut k: usize = 0;
    while k < m
        invariant
            k <= m <= n,
            n == s@.len(),
            m == p@.len(),
            s@.take(k as int) == p@.take(k as int),
        decreases m - k,
    {
        if s.get_char(k) != p.get_char(k) {
            proof {
                assert(s@.take(m as int)[k as int] == s@[k as int]);
            }
            return false;
        }
        proof {
            assert(s@.take(k + 1) =~= s@.take(k as int).push(s@[k as int]));
            assert(p@.take(k + 1) =~= p@.take(k as int).push(p@[k as int]));
        }
        k += 1;
    }
    proof {
        assert(p@.take(m as int) =~= p@);
    }
    true
}

/// The difficulty a `-d` value names: `ee`/`e2` easiest, `e`/`e1` easy,
/// `h`/`h1` hard, `hh`/`h2` hardest, anything else normal.
pub open spec fn spec_difficulty(d: Seq<char>) -> Difficulty {
    if d == "ee"@ || d == "e2"@ {
        Difficulty::Easiest
    } else if d == "e"@ || d == "e1"@ {
        Difficulty::Easy
    } else if d == "h"@ || d == "h1"@ {
        Difficulty::Hard
    } else if d == "hh"@ || d == "h2"@ {
        Difficulty::Hardest
    } else {
        Difficulty::Normal
    }
}

/// A `-d` value the options accept.
pub open spec fn dif_ok(d: Seq<char>) -> bool {
    d == "n"@ || d == "e"@ || d == "e1"@ || d == "ee"@ || d == "e2"@ || d == "h"@ || d == "h1"@ || d == "hh"@ || d == "h2"@
}

/// The speed an `-s` value names: `p` pause, `sss`/`s3` slowest,
/// `ss`/`s2` slower, `s`/`s1` slow, `f`/`f1` fast, `ff`/`f2` faster,
/// `fff`/`f3` fastest, anything else normal.
pub open spec fn spec_speed(s: Seq<char>) -> Speed {
    if s == "p"@ {
        Speed::Pause
    } else if s == "sss"@ || s == "s3"@ {
        Speed::Slowest
    } else if s == "ss"@ || s == "s2"@ {
        Speed::Slower
    } else if s == "s"@ || s == "s1"@ {
        Speed::Slow
    } else if s == "f"@ || s == "f1"@ {
        Speed::Fast
    } else if s == "ff"@ || s == "f2"@ {
        Speed::Faster
    } else if s == "fff"@ || s == "f3"@ {
        Speed::Fastest
    } else {
        Speed::Normal
    }
}

/// An `-s` value the options accept.
pub open spec fn speed_ok(s: Seq<char>) -> bool {
    s == "p"@ || s == "s"@ || s == "s1"@ || s == "ss"@ || s == "s2"@ || s == "sss"@ || s == "s3"@ || s == "n"@
        || s == "f"@ || s == "f1"@ || s == "ff"@ || s == "f2"@ || s == "fff"@ || s == "f3"@
}

/// The shape an `-S` value names: `rhombus`, `hex`, anything else the
/// rectangle.
pub open spec fn spec_shape(s: Seq<char>) -> Shape {
    if s == "rhombus"@ { Shape::Rhombus } else if s == "hex"@ { Shape::Hex } else { Shape::Rect }
}

/// An `-S` value the options accept.
pub open spec fn shape_ok(s: Seq<char>) -> bool {
    s == "rhombus"@ || s == "rect"@ || s == "hex"@
}

/// The difficulty of an optional `-d` value (normal when absent).
pub fn difficulty_of(d: &Option<String>) -> (r: Difficulty)
    ensures
        r == (match d {
            Some(t) => spec_difficulty(t@),
            None => Difficulty::Normal,
        }),
{
    match d {
        Some(t) => {
            let s = t.as_str();
            if str_eq(s, "ee") || str_eq(s, "e2") {
                Difficulty::Easiest
            } else if str_eq(s, "e") || str_eq(s, "e1") {
                Difficulty::Easy
            } else if str_eq(s, "h") || str_eq(s, "h1") {
                Difficulty::Hard
            } else if str_eq(s, "hh") || str_eq(s, "h2") {
                Difficulty::Hardest
            } else {
                Difficulty::Normal
            }
        },
        None => Difficulty::Normal,
    }
}

/// The speed of an optional `-s` value (normal when absent).
pub fn speed_of(v: &Option<String>) -> (r: Speed)
    ensures
        r == (match v {
            Some(t) => spec_speed(t@),
            None => Speed::Normal,
        }),
{
    match v {
        Some(t) => {
            let s = t.as_str();
            if str_eq(s, "p") {
                Speed::Pause
            } else if str_eq(s, "sss") || str_eq(s, "s3") {
                Speed::Slowest
            } else if str_eq(s, "ss") || str_eq(s, "s2") {
                Speed::Slower
            } else if str_eq(s, "s") || str_eq(s, "s1") {
                Speed::Slow
            } else if str_eq(s, "f") || str_eq(s, "f1") {
                Speed::Fast
            } else if str_eq(s, "ff") || str_eq(s, "f2") {
                Speed::Faster
            } else if str_eq(s, "fff") || str_eq(s, "f3") {
                Speed::Fastest
            } else {
                Speed::Normal
            }
        },
        None => Speed::Normal,
    }
}

/// The shape of an optional `-S` value (the rectangle when absent).
pub fn shape_of(v: &Option<String>) -> (r: Shape)
    ensures
        r == (match v {
            Some(t) => spec_shape(t@),
            None => Shape::Rect,
        }),
{
    match v {
        Some(t) => {
            let s = t.as_str();
            if str_eq(s, "rhombus") {
                Shape::Rhombus
            } else if str_eq(s, "hex") {
                Shape::Hex
            } else {
                Shape::Rect
            }
        },
        None => Shape::Rect,
    }
}

/// The most countries the `-S` value allows: 4 for the rhombus and the
/// rectangle (also when absent), 6 for the hexagon, none for anything else.
pub open spec fn max_countries(v: Option<String>) -> int {
    match v {
        Some(t) => if t@ == "rhombus"@ || t@ == "rect"@ { 4 } else if t@ == "hex"@ { 6 } else { 0 },
        None => 4,
    }
}

/// The options are consistent: a known difficulty, speed and shape (when
/// given) and a number of countries (when given) in `2..=max_countries`.
pub open spec fn options_ok(out: CliOptions) -> bool {
    &&& (out.dif matches Some(d) ==> dif_ok(d@))
    &&& (out.speed matches Some(s) ==> speed_ok(s@))
    &&& (out.shape matches Some(s) ==> shape_ok(s@))
    &&& (out.loc_num matches Some(n) ==> 2 <= n <= max_countries(out.shape))
}

/// Checks `options_ok`.
pub fn validate(out: &CliOptions) -> (r: bool)
    ensures
        r == options_ok(*out),
{
    if let Some(d) = &out.dif {
        let s = d.as_str();
        if !(str_eq(s, "n") || str_eq(s, "e") || str_eq(s, "e1") || str_eq(s, "ee") || str_eq(s, "e2")
            || str_eq(s, "h") || str_eq(s, "h1") || str_eq(s, "hh") || str_eq(s, "h2")) {
            return false;
        }
    }
    if let Some(v) = &out.speed {
        let s = v.as_str();
        if !(str_eq(s, "p") || str_eq(s, "s") || str_eq(s, "s1") || str_eq(s, "ss") || str_eq(s, "s2")
            || str_eq(s, "sss") || str_eq(s, "s3") || str_eq(s, "n") || str_eq(s, "f") || str_eq(s, "f1")
            || str_eq(s, "ff") || str_eq(s, "f2") || str_eq(s, "fff") || str_eq(s, "f3")) {
            return false;
        }
    }
    if let Some(v) = &out.shape {
        let s = v.as_str();
        if !(str_eq(s, "rhombus") || str_eq(s, "rect") || str_eq(s, "hex")) {
            return false;
        }
    }
    let avlbl: usize = match &out.shape {
        Some(v) => {
            let s = v.as_str();
            if str_eq(s, "rhombus") || str_eq(s, "rect") { 4 } else if str_eq(s, "hex") { 6 } else { 0 }
        },
        None => 4,
    };
    if let Some(n) = out.loc_num {
        if n < 2 || n > avlbl {
            return false;
        }
    }
    true
}

/// The game options the command-line options give with map seed `seed`:
/// the named difficulty and shape, the named speed (normal when
/// `headless`), the dimensions given (default 21 by 21), the number of
/// countries given (default all the shape offers), conditions 0 and
/// inequality -1 when not given.
pub open spec fn spec_game_options(out: CliOptions, seed: u32, headless: bool) -> GameOptions {
    let shape = match out.shape { Some(t) => spec_shape(t@), None => Shape::Rect };
    GameOptions {
        keep_random: out.keep_random,
        dif: match out.dif { Some(t) => spec_difficulty(t@), None => Difficulty::Normal },
        speed: if headless { Speed::Normal } else { match out.speed { Some(t) => spec_speed(t@), None => Speed::Normal } },
        w: match out.w { Some(w) => w, None => DEFAULT_W },
        h: match out.h { Some(h) => h, None => DEFAULT_H },
        loc_num: match out.loc_num { Some(n) => n, None => spec_avlbl_loc_num(shape) },
        map_seed: seed,
        conditions: match out.conditions { Some(c) => c, None => 0i32 },
        timeline: out.timeline,
        inequality: match out.inequality { Some(i) => i, None => -1i32 },
        shape,
    }
}

/// The game options of `spec_game_options`.
pub fn game_options(out: &CliOptions, seed: u32, headless: bool) -> (r: GameOptions)
    ensures
        r == spec_game_options(*out, seed, headless),
{
    let shape = shape_of(&out.shape);
    GameOptions {
        keep_random: out.keep_random,
        dif: difficulty_of(&out.dif),
        speed: if headless { Speed::Normal } else { speed_of(&out.speed) },
        w: match out.w { Some(w) => w, None => DEFAULT_W },
        h: match out.h { Some(h) => h, None => DEFAULT_H },
        loc_num: match out.loc_num { Some(n) => n, None => shape.avlbl_loc_num() },
        map_seed: seed,
        conditions: match out.conditions { Some(c) => c, None => 0 },
        timeline: out.timeline,
        inequality: match out.inequality { Some(i) => i, None => -1 },
        shape,
    }
}

/// The map seed an `-R` value gives: the text read as a 64-bit integer,
/// its absolute value reduced modulo `2^32`.
pub fn seed_of(v: &Option<String>) -> (r: Option<u32>)
    ensures
        r == (match v {
            Some(t) => match parsed_int(t@, true, i64::MIN as int, i64::MAX as int) {
                Some(n) => Some(((if n < 0 { -n } else { n }) % 0x1_0000_0000) as u32),
                None => None,
            },
            None => None,
        }),
{
    match v {
        Some(t) => match parse_i64(t.as_str()) {
            Some(n) => {
                let a: u64 = if n < 0 { (-(n as i128)) as u64 } else { n as u64 };
                Some((a % 0x1_0000_0000) as u32)
            },
            None => None,
        },
        None => None,
    }
}

/// The command line as the option parser hands it over: the flags given,
/// the number of free arguments, and the text of each option given.
pub struct RawArgs {
    /// `-v`
    pub version: bool,
    /// `-h`
    pub help: bool,
    /// Arguments that are no option.
    pub free: usize,
    /// `-r`
    pub random: bool,
    /// `-T`
    pub timeline: bool,
    /// `--headless`
    pub headless: bool,
    /// `--headless-steps`
    pub headless_steps: Option<String>,
    /// `-W`
    pub width: Option<String>,
    /// `-H`
    pub height: Option<String>,
    /// `-i`
    pub inequality: Option<String>,
    /// `-l`
    pub locations: Option<String>,
    /// `-q`
    pub quality: Option<String>,
    /// `-R`
    pub seed: Option<String>,
    /// `-d`
    pub difficulty: Option<String>,
    /// `-s`
    pub speed: Option<String>,
    /// `-S`
    pub shape: Option<String>,
    /// `-E`
    pub server_clients: Option<String>,
    /// `-e`
    pub server_port: Option<String>,
    /// `-C`
    pub server_ip: Option<String>,
    /// `-c`
    pub client_port: Option<String>,
}

/// The text read as an unsigned integer (none when absent or unreadable).
pub open spec fn opt_usize(v: Option<String>) -> Option<usize> {
    match v {
        Some(t) => match parsed_int(t@, false, 0, usize::MAX as int) {
            Some(n) => Some(n as usize),
            None => None,
        },
        None => None,
    }
}

/// The text read as a 32-bit integer (none when absent or unreadable).
pub open spec fn opt_i32(v: Option<String>) -> Option<i32> {
    match v {
        Some(t) => match parsed_int(t@, true, i32::MIN as int, i32::MAX as int) {
            Some(n) => Some(n as i32),
            None => None,
        },
        None => None,
    }
}

/// An optional text read as an unsigned integer.
fn read_usize(v: &Option<String>) -> (r: Option<usize>)
    ensures
        r == opt_usize(*v),
{
    match v {
        Some(t) => parse_usize(t.as_str()),
        None => None,
    }
}

/// An optional text read as a 32-bit integer.
fn read_i32(v: &Option<String>) -> (r: Option<i32>)
    ensures
        r == opt_i32(*v),
{
    match v {
        Some(t) => parse_i32(t.as_str()),
        None => None,
    }
}

/// The width or height an option gives: the number read and clamped into
/// `MIN_DIM..=hi`.
pub open spec fn opt_dim(v: Option<String>, hi: int) -> Option<usize> {
    match opt_usize(v) {
        Some(n) => Some((if n < MIN_DIM { MIN_DIM as int } else if n > hi { hi } else { n as int }) as usize),
        None => None,
    }
}

/// `r` is what the command line `raw` gives: the numbers read (the
/// dimensions clamped into their bounds, the seed reduced as `seed_of`
/// says), the other texts kept.
pub open spec fn options_from(raw: RawArgs, r: CliOptions) -> bool {
    &&& r.keep_random == raw.random
    &&& r.timeline == raw.timeline
    &&& r.w == opt_dim(raw.width, MAX_DIM_W as int)
    &&& r.h == opt_dim(raw.height, MAX_DIM_H as int)
    &&& r.inequality == opt_i32(raw.inequality)
    &&& r.loc_num == opt_usize(raw.locations)
    &&& r.conditions == opt_i32(raw.quality)
    &&& r.map_seed == (match raw.seed {
        Some(t) => match parsed_int(t@, true, i64::MIN as int, i64::MAX as int) {
            Some(n) => Some(((if n < 0 { -n } else { n }) % 0x1_0000_0000) as u32),
            None => None,
        },
        None => None,
    })
    &&& r.dif == raw.difficulty
    &&& r.speed == raw.speed
    &&& r.shape == raw.shape
    &&& r.multiplayer.clients_num == opt_usize(raw.server_clients)
    &&& r.multiplayer.server_port == raw.server_port
    &&& r.multiplayer.server_addr == raw.server_ip
    &&& r.multiplayer.client_port == raw.client_port
}

/// The options of a command line (see `options_from`).
pub fn cli_options(raw: RawArgs) -> (r: CliOptions)
    ensures
        options_from(raw, r),
{
    let w = match read_usize(&raw.width) {
        Some(n) => Some(if n < MIN_DIM { MIN_DIM } else if n > MAX_DIM_W { MAX_DIM_W } else { n }),
        None => None,
    };
    let h = match read_usize(&raw.height) {
        Some(n) => Some(if n < MIN_DIM { MIN_DIM } else if n > MAX_DIM_H { MAX_DIM_H } else { n }),
        None => None,
    };
    let inequality = read_i32(&raw.inequality);
    let loc_num = read_usize(&raw.locations);
    let conditions = read_i32(&raw.quality);
    let map_seed = seed_of(&raw.seed);
    let clients_num = read_usize(&raw.server_clients);
    CliOptions {
        keep_random: raw.random,
        timeline: raw.timeline,
        w,
        h,
        inequality,
        loc_num,
        conditions,
        map_seed,
        dif: raw.difficulty,
        speed: raw.speed,
        shape: raw.shape,
        multiplayer: MultiplayerOptions {
            clients_num,
            server_port: raw.server_port,
            server_addr: raw.server_ip,
            client_port: raw.client_port,
        },
    }
}

/// What the program does with its command line.
#[derive(Clone, Copy, PartialEq, Eq, Structural, Debug)]
pub enum CliOutcome {
    /// Print the version and exit with status 1.
    ShowVersion,
    /// Print the help and exit with status 1.
    ShowHelp,
    /// Say that multiplayer is not available and exit with status 1.
    MultiplayerNotice,
    /// Start the game (without the terminal interface when `headless`).
    Run,
}

/// The outcome of a command line whose options read as `out`: `-v` shows
/// the version; `-h` or a free argument shows the help; a multiplayer
/// option gets the notice; inconsistent options (`options_ok`) show the
/// help; anything else runs.
pub open spec fn spec_decide(version: bool, help: bool, free: usize, out: CliOptions) -> CliOutcome {
    if version {
        CliOutcome::ShowVersion
    } else if help || free > 0 {
        CliOutcome::ShowHelp
    } else if out.multiplayer.clients_num is Some || out.multiplayer.server_port is Some
        || out.multiplayer.server_addr is Some || out.multiplayer.client_port is Some {
        CliOutcome::MultiplayerNotice
    } else if !options_ok(out) {
        CliOutcome::ShowHelp
    } else {
        CliOutcome::Run
    }
}

/// Decides what to do with a command line (see `spec_decide`).
pub fn decide(version: bool, help: bool, free: usize, out: &CliOptions) -> (r: CliOutcome)
    ensures
        r == spec_decide(version, help, free, *out),
{
    if version {
        return CliOutcome::ShowVersion;
    }
    if help || free > 0 {
        return CliOutcome::ShowHelp;
    }
    if out.multiplayers_set() {
        return CliOutcome::MultiplayerNotice;
    }
    if !validate(out) {
        return CliOutcome::ShowHelp;
    }
    CliOutcome::Run
}

/// The number of steps a headless run takes: the number given, 1000 when
/// absent or unreadable.
pub fn headless_steps(v: &Option<String>) -> (r: usize)
    ensures
        r == (match opt_usize(*v) {
            Some(n) => n,
            None => 1000,
        }),
{
    match read_usize(v) {
        Some(n) => n,
        None => 1000,
    }
}

/// The language the command line asks for with `--lang VALUE` or
/// `--lang=VALUE`, looking at the arguments from `i` on (the first such
/// argument decides).
pub open spec fn lang_from(args: Seq<String>, i: int) -> Option<Lang>
    decreases args.len() - i,
{
    if i < 0 || i >= args.len() {
        None
    } else if args[i]@ == "--lang"@ && i + 1 < args.len() {
        spec_lang_code(args[i + 1]@)
    } else if 7 <= args[i]@.len() && args[i]@.take(7) == "--lang="@ {
        spec_lang_code(args[i]@.skip(7))
    } else {
        lang_from(args, i + 1)
    }
}

/// The language the command line `args` asks for (the program name,
/// `args[0]`, is skipped); see `lang_from`.
pub fn lang_arg(args: &Vec<String>) -> (r: Option<Lang>)
    ensures
        r == lang_from(args@, 1),
{
    proof {
        reveal_strlit("--lang=");
        assert("--lang="@.len() == 7);
    }
    if args.len() < 1 {
        return None;
    }
    let mut i: usize = 1;
    while i < args.len()
        invariant
            1 <= i <= args@.len(),
            "--lang="@.len() == 7,
            lang_from(args@, i as int) == lang_from(args@, 1),
        decreases args@.len() - i,
    {
        let a = args[i].as_str();
        if str_eq(a, "--lang") && i + 1 < args.len() {
            return parse_lang(args[i + 1].as_str());
        }
        if starts_with(a, "--lang=") {
            let n = a.unicode_len();
            let rest = a.substring_char(7, n);
            proof {
                assert(a@.subrange(7, n as int) =~= a@.skip(7));
            }
            return parse_lang(rest);
        }
        i += 1;
    }
    None
}

} // verus!
