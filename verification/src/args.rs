//! Reading the command line: getopts parses it against the game's table of
//! options, and the outcome, the options and the headless run follow from
//! what it found.
use vstd::prelude::*;
use crate::cli::{cli_options, decide, headless_steps, opt_usize, options_from, spec_decide, CliOptions, CliOutcome, RawArgs};

verus! {

/// What getopts found on a command line: for each flag of the table
/// whether it was given, for each option taking a value the value given
/// (getopts refuses an option given twice), and the free arguments.
pub struct ParsedArgs {
    pub present: Vec<bool>,
    pub values: Vec<Option<String>>,
    pub free: Vec<String>,
}

/// The text of an optional string.
pub open spec fn opt_text(o: Option<String>) -> Option<Seq<char>> {
    match o {
        Some(s) => Some(s@),
        None => None,
    }
}

impl ParsedArgs {
    /// The flags, values and free arguments as plain values.
    pub open spec fn spec_view(&self) -> (Seq<bool>, Seq<Option<Seq<char>>>, Seq<Seq<char>>) {
        (
            self.present@,
            self.values@.map_values(|o: Option<String>| opt_text(o)),
            self.free@.map_values(|s: String| s@),
        )
    }
}

/// What `getopts::Options::parse` makes of the arguments `args`, with the
/// flags `flags` and the options taking a value `values` declared (short
/// and long names): each looked up by its long name, and the free
/// arguments; or getopts' message when it refuses the arguments.
pub uninterp spec fn getopts_parsed(
    flags: Seq<(Seq<char>, Seq<char>)>,
    values: Seq<(Seq<char>, Seq<char>)>,
    args: Seq<Seq<char>>,
) -> Result<(Seq<bool>, Seq<Option<Seq<char>>>, Seq<Seq<char>>), Seq<char>>;

/// A short name getopts accepts: none, or one character of one byte.
pub open spec fn short_name_ok(s: Seq<char>) -> bool {
    s.len() == 0 || (s.len() == 1 && (s[0] as int) < 0x80)
}

/// A long name getopts accepts and finds again by that name: at least two
/// bytes (two characters, or one that takes more than a byte).
pub open spec fn long_name_ok(s: Seq<char>) -> bool {
    s.len() >= 2 || (s.len() == 1 && (s[0] as int) >= 0x80)
}

/// Every entry of a table has names getopts accepts.
pub open spec fn names_ok(t: Seq<(Seq<char>, Seq<char>)>) -> bool {
    forall|k: int| 0 <= k < t.len() ==> short_name_ok(#[trigger] t[k].0) && long_name_ok(t[k].1)
}

/// The names of a table of options as plain texts.
pub open spec fn names_view(t: Seq<(&str, &str)>) -> Seq<(Seq<char>, Seq<char>)> {
    t.map_values(|p: (&str, &str)| (p.0@, p.1@))
}

/// The texts of a list of strings.
pub open spec fn texts(a: Seq<String>) -> Seq<Seq<char>> {
    a.map_values(|s: String| s@)
}

/// `getopts::Options::parse` on `args`, after `Options::optflag` for each
/// entry of `flags` and `Options::optopt` for each entry of `values`; then
/// `Matches::opt_present` and `Matches::opt_str` by long name, and
/// `Matches::free`. The result is named (`getopts_parsed`), and it has one
/// entry per flag and per option taking a value; a refusal gives getopts'
/// message. getopts panics on a name it does not accept (`validate_names`)
/// and on a lookup of a name it does not know, which `names_ok` leaves out.
#[verifier::external_body]
fn getopts_parse(flags: &Vec<(&str, &str)>, values: &Vec<(&str, &str)>, args: &Vec<String>) -> (r: Result<ParsedArgs, String>)
    requires
        names_ok(names_view(flags@)),
        names_ok(names_view(values@)),
    ensures
        (match r {
            Ok(p) => Ok(p.spec_view()),
            Err(e) => Err(e@),
        }) == getopts_parsed(names_view(flags@), names_view(values@), texts(args@)),
        r matches Ok(p) ==> p.present@.len() == flags@.len() && p.values@.len() == values@.len(),
{
    let mut o = getopts::Options::new();
    for (s, l) in flags.iter() {
        o.optflag(s, l, "");
    }
    for (s, l) in values.iter() {
        o.optopt(s, l, "", "");
    }
    match o.parse(args) {
        Ok(m) => Ok(ParsedArgs {
            present: flags.iter().map(|(_, l)| m.opt_present(l)).collect(),
            values: values.iter().map(|(_, l)| m.opt_str(l)).collect(),
            free: m.free,
        }),
        Err(e) => Err(e.to_string()),
    }
}

/// The flags the game declares: help, version, random, timeline, headless.
pub open spec fn flag_table() -> Seq<(Seq<char>, Seq<char>)> {
    seq![("h"@, "help"@), ("v"@, "version"@), ("r"@, "random"@), ("T"@, "timeline"@), (""@, "headless"@)]
}

/// The options taking a value that the game declares.
pub open spec fn value_table() -> Seq<(Seq<char>, Seq<char>)> {
    seq![
        (""@, "headless-steps"@),
        ("W"@, "width"@),
        ("H"@, "height"@),
        ("i"@, "inequality"@),
        ("l"@, "locations"@),
        ("q"@, "quality"@),
        ("R"@, "seed"@),
        ("d"@, "difficulty"@),
        ("s"@, "speed"@),
        ("S"@, "shape"@),
        ("E"@, "server-clients"@),
        ("e"@, "server-port"@),
        ("C"@, "server-ip"@),
        ("c"@, "client-port"@),
        (""@, "lang"@)
    ]
}

/// The game's two tables have names getopts accepts.
proof fn lemma_tables_ok()
    ensures
        names_ok(flag_table()),
        names_ok(value_table()),
{
    reveal_strlit("h");
    reveal_strlit("help");
    reveal_strlit("v");
    reveal_strlit("version");
    reveal_strlit("r");
    reveal_strlit("random");
    reveal_strlit("T");
    reveal_strlit("timeline");
    reveal_strlit("");
    reveal_strlit("headless");
    reveal_strlit("headless-steps");
    reveal_strlit("W");
    reveal_strlit("width");
    reveal_strlit("H");
    reveal_strlit("height");
    reveal_strlit("i");
    reveal_strlit("inequality");
    reveal_strlit("l");
    reveal_strlit("locations");
    reveal_strlit("q");
    reveal_strlit("quality");
    reveal_strlit("R");
    reveal_strlit("seed");
    reveal_strlit("d");
    reveal_strlit("difficulty");
    reveal_strlit("s");
    reveal_strlit("speed");
    reveal_strlit("S");
    reveal_strlit("shape");
    reveal_strlit("E");
    reveal_strlit("server-clients");
    reveal_strlit("e");
    reveal_strlit("server-port");
    reveal_strlit("C");
    reveal_strlit("server-ip");
    reveal_strlit("c");
    reveal_strlit("client-port");
    reveal_strlit("lang");
    let f = flag_table();
    let v = value_table();
    assert forall|k: int| 0 <= k < f.len() implies short_name_ok(#[trigger] f[k].0) && long_name_ok(f[k].1) by {
        assert(0 <= k < 5);
    }
    assert forall|k: int| 0 <= k < v.len() implies short_name_ok(#[trigger] v[k].0) && long_name_ok(v[k].1) by {
        assert(0 <= k < 15);
    }
}

/// `raw` holds what getopts found (`pv`), entry by entry of the tables.
pub open spec fn raw_matches(raw: RawArgs, pv: (Seq<bool>, Seq<Option<Seq<char>>>, Seq<Seq<char>>)) -> bool {
    &&& raw.help == pv.0[0]
    &&& raw.version == pv.0[1]
    &&& raw.random == pv.0[2]
    &&& raw.timeline == pv.0[3]
    &&& raw.headless == pv.0[4]
    &&& raw.free == pv.2.len()
    &&& opt_text(raw.headless_steps) == pv.1[0]
    &&& opt_text(raw.width) == pv.1[1]
    &&& opt_text(raw.height) == pv.1[2]
    &&& opt_text(raw.inequality) == pv.1[3]
    &&& opt_text(raw.locations) == pv.1[4]
    &&& opt_text(raw.quality) == pv.1[5]
    &&& opt_text(raw.seed) == pv.1[6]
    &&& opt_text(raw.difficulty) == pv.1[7]
    &&& opt_text(raw.speed) == pv.1[8]
    &&& opt_text(raw.shape) == pv.1[9]
    &&& opt_text(raw.server_clients) == pv.1[10]
    &&& opt_text(raw.server_port) == pv.1[11]
    &&& opt_text(raw.server_ip) == pv.1[12]
    &&& opt_text(raw.client_port) == pv.1[13]
}

/// What a command line decides: what to do, the options read, whether the
/// run is headless, and how many steps a headless run takes; `raw` is the
/// command line as read.
pub struct Decision {
    pub raw: Ghost<RawArgs>,
    pub outcome: CliOutcome,
    pub options: CliOptions,
    pub headless: bool,
    pub steps: usize,
}

/// `d` is what the parse `pv` decides: its arguments as read, the options
/// they give (`options_from`), the outcome (`spec_decide`), the headless
/// flag and the step count (1000 unless given).
pub open spec fn decided(pv: (Seq<bool>, Seq<Option<Seq<char>>>, Seq<Seq<char>>), d: Decision) -> bool {
    let raw = d.raw@;
    &&& raw_matches(raw, pv)
    &&& options_from(raw, d.options)
    &&& d.outcome == spec_decide(raw.version, raw.help, raw.free, d.options)
    &&& d.headless == raw.headless
    &&& d.steps == (match opt_usize(raw.headless_steps) {
        Some(n) => n,
        None => 1000,
    })
}

/// The flag table, as the parser takes it.
fn flag_names() -> (r: Vec<(&'static str, &'static str)>)
    ensures
        names_view(r@) == flag_table(),
        r@.len() == 5,
{
    let r = vec![("h", "help"), ("v", "version"), ("r", "random"), ("T", "timeline"), ("", "headless")];
    assert(names_view(r@) =~= flag_table());
    r
}

/// The table of options taking a value, as the parser takes it.
fn value_names() -> (r: Vec<(&'static str, &'static str)>)
    ensures
        names_view(r@) == value_table(),
        r@.len() == 15,
{
    let r = vec![
        ("", "headless-steps"),
        ("W", "width"),
        ("H", "height"),
        ("i", "inequality"),
        ("l", "locations"),
        ("q", "quality"),
        ("R", "seed"),
        ("d", "difficulty"),
        ("s", "speed"),
        ("S", "shape"),
        ("E", "server-clients"),
        ("e", "server-port"),
        ("C", "server-ip"),
        ("c", "client-port"),
        ("", "lang"),
    ];
    assert(names_view(r@) =~= value_table());
    r
}

/// Takes the last value off `vals`.
fn take_last(vals: &mut Vec<Option<String>>) -> (r: Option<String>)
    requires
        old(vals)@.len() > 0,
    ensures
        r == old(vals)@[old(vals)@.len() - 1],
        final(vals)@ == old(vals)@.subrange(0, old(vals)@.len() - 1),
{
    match vals.pop() {
        Some(v) => v,
        None => None,
    }
}

/// `run_with_args`' reading of the command line `args` (the program's name
/// first): getopts parses the rest against the game's options; a refusal
/// gives getopts' message, otherwise the decision that what it found gives
/// (`decided`).
pub fn run_decision(args: &Vec<String>) -> (r: Result<Decision, String>)
    requires
        args@.len() >= 1,
    ensures
        match getopts_parsed(flag_table(), value_table(), texts(args@).drop_first()) {
            Ok(pv) => r matches Ok(d) && decided(pv, d),
            Err(msg) => r matches Err(e) && e@ == msg,
        },
{
    let mut tail: Vec<String> = Vec::new();
    let mut i: usize = 1;
    while i < args.len()
        invariant
            1 <= i <= args@.len(),
            tail@.len() == i - 1,
            forall|k: int| 0 <= k < tail@.len() ==> #[trigger] tail@[k] == args@[k + 1],
        decreases args@.len() - i,
    {
        tail.push(args[i].clone());
        i += 1;
    }
    proof {
        assert(texts(tail@) =~= texts(args@).drop_first());
    }
    let flags = flag_names();
    let values = value_names();
    proof {
        lemma_tables_ok();
    }
    let parsed = getopts_parse(&flags, &values, &tail);
    let p = match parsed {
        Ok(p) => p,
        Err(e) => {
            return Err(e);
        },
    };
    let ghost pv = p.spec_view();
    let ParsedArgs { present, values: mut vals, free } = p;
    proof {
        assert(vals@.len() == 15);
        assert(present@.len() == 5);
    }
    let ghost v0 = vals@;
    let _lang = take_last(&mut vals);
    let client_port = take_last(&mut vals);
    let server_ip = take_last(&mut vals);
    let server_port = take_last(&mut vals);
    let server_clients = take_last(&mut vals);
    let shape = take_last(&mut vals);
    let speed = take_last(&mut vals);
    let difficulty = take_last(&mut vals);
    let seed = take_last(&mut vals);
    let quality = take_last(&mut vals);
    let locations = take_last(&mut vals);
    let inequality = take_last(&mut vals);
    let height = take_last(&mut vals);
    let width = take_last(&mut vals);
    let steps_text = take_last(&mut vals);
    let raw = RawArgs {
        version: present[1],
        help: present[0],
        free: free.len(),
        random: present[2],
        timeline: present[3],
        headless: present[4],
        headless_steps: steps_text,
        width,
        height,
        inequality,
        locations,
        quality,
        seed,
        difficulty,
        speed,
        shape,
        server_clients,
        server_port,
        server_ip,
        client_port,
    };
    let steps = headless_steps(&raw.headless_steps);
    let version = raw.version;
    let help = raw.help;
    let nfree = raw.free;
    let headless = raw.headless;
    let ghost raw0 = raw;
    let options = cli_options(raw);
    let outcome = decide(version, help, nfree, &options);
    proof {
        assert(pv.1 == v0.map_values(|o: Option<String>| opt_text(o)));
        assert(raw_matches(raw0, pv));
    }
    Ok(Decision { raw: Ghost(raw0), outcome, options, headless, steps })
}

} // verus!
