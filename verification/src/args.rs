//! The command line, and the addresses that follow from it.
use crate::text;
use vstd::prelude::*;

verus! {

/// What the command line asks for.
#[derive(Debug, Clone)]
pub struct Args {
    pub bind: String,
    pub port: u16,
    pub open_browser: bool,
}

/// What is to be done.
#[derive(Debug, Clone, Copy, PartialEq, Eq, Structural)]
pub enum Purpose {
    /// Serve.
    Run,
    /// Say which version this is.
    Version,
    /// Say what can be asked for.
    Help,
}

/// A command line, read: what it asks for, what it is for, and what was not understood.
#[derive(Debug, Clone)]
pub struct Parsed {
    pub args: Args,
    pub purpose: Purpose,
    pub unknown: Vec<String>,
}

/// What a command line says.
pub ghost struct ParsedView {
    pub bind: Seq<char>,
    pub port: u16,
    pub open_browser: bool,
    pub purpose: Purpose,
    pub unknown: Seq<Seq<char>>,
}

/// Some texts.
pub open spec fn texts(s: Seq<String>) -> Seq<Seq<char>> {
    s.map_values(|t: String| t@)
}

impl View for Parsed {
    type V = ParsedView;

    open spec fn view(&self) -> ParsedView {
        ParsedView {
            bind: self.args.bind@,
            port: self.args.port,
            open_browser: self.args.open_browser,
            purpose: self.purpose,
            unknown: texts(self.unknown@),
        }
    }
}

/// What holds where nothing else is asked for.
pub open spec fn defaults() -> ParsedView {
    ParsedView {
        bind: "0.0.0.0"@,
        port: 8420,
        open_browser: true,
        purpose: Purpose::Run,
        unknown: Seq::empty(),
    }
}

/// The port that an argument names, or else the one from before.
pub open spec fn port_or(arg: Seq<char>, port: u16) -> u16 {
    match text::port_of(arg) {
        Some(p) => p,
        None => port,
    }
}

/// What a command line says, when `p` is what was said before it: its arguments count from
/// left to right. A port or an address takes the next argument, and where there is none it is
/// passed over. A question for version or help ends the reading.
pub open spec fn scanned(args: Seq<Seq<char>>, p: ParsedView) -> ParsedView
    decreases args.len(),
{
    if args.len() == 0 {
        p
    } else {
        let a = args[0];
        let rest = args.skip(1);
        if a == "--port"@ {
            if rest.len() == 0 {
                p
            } else {
                scanned(rest.skip(1), ParsedView { port: port_or(rest[0], p.port), ..p })
            }
        } else if a == "--bind"@ {
            if rest.len() == 0 {
                p
            } else {
                scanned(rest.skip(1), ParsedView { bind: rest[0], ..p })
            }
        } else if a == "--local"@ {
            scanned(rest, ParsedView { bind: "127.0.0.1"@, ..p })
        } else if a == "--no-browser"@ || a == "--headless"@ {
            scanned(rest, ParsedView { open_browser: false, ..p })
        } else if a == "--version"@ || a == "-V"@ {
            ParsedView { purpose: Purpose::Version, ..p }
        } else if a == "--help"@ || a == "-h"@ {
            ParsedView { purpose: Purpose::Help, ..p }
        } else {
            scanned(rest, ParsedView { unknown: p.unknown.push(a), ..p })
        }
    }
}

/// Reads a command line, without the name of the program.
pub fn parse_args(args: &Vec<String>) -> (r: Parsed)
    ensures
        r@ == scanned(texts(args@), defaults()),
{
    let ghost all = texts(args@);
    let mut r = Parsed {
        args: Args { bind: "0.0.0.0".to_owned(), port: 8420, open_browser: true },
        purpose: Purpose::Run,
        unknown: Vec::new(),
    };
    let mut i: usize = 0;
    proof {
        assert(texts(r.unknown@) =~= Seq::empty());
        assert(r@ == defaults());
        assert(all.skip(0) =~= all);
    }
    while i < args.len()
        invariant
            i <= args@.len(),
            all == texts(args@),
            scanned(all, defaults()) == scanned(all.skip(i as int), r@),
        decreases args@.len() - i,
    {
        let a = args[i].as_str();
        let ghost before = r@;
        proof {
            assert(all.skip(i as int)[0] == a@);
            assert(all.skip(i as int).skip(1) =~= all.skip(i + 1));
            if i + 2 <= all.len() {
                assert(all.skip(i as int).skip(1).skip(1) =~= all.skip(i + 2));
            }
        }
        i += 1;
        if text::same(a, "--port") {
            if i < args.len() {
                assert(all.skip(i as int)[0] == args@[i as int]@);
                match text::parse_port(args[i].as_str()) {
                    Some(p) => {
                        r.args.port = p;
                    },
                    None => {},
                }
                i += 1;
            }
        } else if text::same(a, "--bind") {
            if i < args.len() {
                assert(all.skip(i as int)[0] == args@[i as int]@);
                r.args.bind = args[i].clone();
                i += 1;
            }
        } else if text::same(a, "--local") {
            r.args.bind = "127.0.0.1".to_owned();
        } else if text::same(a, "--no-browser") || text::same(a, "--headless") {
            r.args.open_browser = false;
        } else if text::same(a, "--version") || text::same(a, "-V") {
            r.purpose = Purpose::Version;
            return r;
        } else if text::same(a, "--help") || text::same(a, "-h") {
            r.purpose = Purpose::Help;
            return r;
        } else {
            let ghost had = r.unknown@;
            r.unknown.push(a.to_owned());
            assert(texts(r.unknown@) =~= texts(had).push(a@));
        }
    }
    r
}

/// The address to listen on.
pub fn listen_address(bind: &str, port: u16) -> (r: String)
    ensures
        r@ == bind@ + ":"@ + text::decimal(port as nat),
{
    text::numbered(text::joined(bind, ":").as_str(), port as u32)
}

/// The address of the user interface on a machine.
pub fn url(host: &str, port: u16) -> (r: String)
    ensures
        r@ == "http://"@ + host@ + ":"@ + text::decimal(port as nat),
{
    let front = text::joined("http://", host);
    text::numbered(text::joined(front.as_str(), ":").as_str(), port as u32)
}

/// The address of the user interface on this machine.
pub fn local_url(port: u16) -> (r: String)
    ensures
        r@ == "http://"@ + "127.0.0.1"@ + ":"@ + text::decimal(port as nat),
{
    url("127.0.0.1", port)
}

/// Whether tablets and phones in the network can reach the user interface.
pub fn serves_network(bind: &str) -> (r: bool)
    ensures
        r == (bind@ == "0.0.0.0"@),
{
    text::same(bind, "0.0.0.0")
}

/// How many ticks of the meters go by between two chances to save.
pub const TICKS_PER_SAVE: u32 = 40;

/// One tick further: the number of the tick, and whether it is a chance to save.
pub fn tick(n: u32) -> (r: (u32, bool))
    ensures
        r.0 == (n + 1) % 0x1_0000_0000,
        r.1 == (r.0 % TICKS_PER_SAVE == 0),
{
    let next = n.wrapping_add(1);
    (next, next % TICKS_PER_SAVE == 0)
}

// ---------------------------------------------------------------- laws

/// Any port can be asked for.
pub proof fn port_is_heard(p: u16)
    ensures
        scanned(seq!["--port"@, text::decimal(p as nat)], defaults()) == (ParsedView {
            port: p,
            ..defaults()
        }),
{
    text::port_reads_back(p);
    let args = seq!["--port"@, text::decimal(p as nat)];
    assert(args.skip(1)[0] == args[1]);
    assert(args.skip(1).skip(1) =~= Seq::empty());
    reveal_with_fuel(scanned, 2);
}

/// Between two chances to save there are as many ticks as there should be: of so many in a
/// row, one is a chance. The count begins anew after 2^32 ticks, which is left out.
pub proof fn saves_come_regularly(n: int)
    requires
        0 <= n,
        n + TICKS_PER_SAVE < 0x1_0000_0000,
    ensures
        exists|k: int| 1 <= k <= TICKS_PER_SAVE && #[trigger] saves_at(n + k),
        forall|j: int, k: int|
            1 <= j <= TICKS_PER_SAVE && 1 <= k <= TICKS_PER_SAVE && #[trigger] saves_at(n + j)
                && #[trigger] saves_at(n + k) ==> j == k,
{
    let k = TICKS_PER_SAVE - n % (TICKS_PER_SAVE as int);
    assert(saves_at(n + k));
}

/// A tick is a chance to save.
pub open spec fn saves_at(n: int) -> bool {
    n % (TICKS_PER_SAVE as int) == 0
}

/// What a command line asks for that begins with one of the words, or with anything else, and
/// goes on with `rest`: the word counts first, whatever was said before, and says one thing only.
/// What comes later therefore counts more.
pub proof fn words_count_from_left_to_right(
    word: Seq<char>,
    rest: Seq<Seq<char>>,
    p: ParsedView,
)
    ensures
        scanned(Seq::empty(), p) == p,
        scanned(seq!["--local"@] + rest, p) == scanned(
            rest,
            (ParsedView { bind: "127.0.0.1"@, ..p }),
        ),
        scanned(seq!["--no-browser"@] + rest, p) == scanned(
            rest,
            (ParsedView { open_browser: false, ..p }),
        ),
        scanned(seq!["--headless"@] + rest, p) == scanned(
            rest,
            (ParsedView { open_browser: false, ..p }),
        ),
        scanned(seq!["--bind"@, word] + rest, p) == scanned(rest, (ParsedView { bind: word, ..p })),
        scanned(seq!["--bind"@], p) == p,
        text::port_of(word) is Some ==> scanned(seq!["--port"@, word] + rest, p) == scanned(
            rest,
            (ParsedView { port: text::port_of(word)->0, ..p }),
        ),
        text::port_of(word) is None ==> scanned(seq!["--port"@, word] + rest, p) == scanned(
            rest,
            p,
        ),
        scanned(seq!["--port"@], p) == p,
        scanned(seq!["--version"@] + rest, p) == (ParsedView { purpose: Purpose::Version, ..p }),
        scanned(seq!["-V"@] + rest, p) == (ParsedView { purpose: Purpose::Version, ..p }),
        scanned(seq!["--help"@] + rest, p) == (ParsedView { purpose: Purpose::Help, ..p }),
        scanned(seq!["-h"@] + rest, p) == (ParsedView { purpose: Purpose::Help, ..p }),
        !is_option(word) ==> scanned(seq![word] + rest, p) == scanned(
            rest,
            (ParsedView { unknown: p.unknown.push(word), ..p }),
        ),
{
    reveal_strlit("--port");
    reveal_strlit("--bind");
    reveal_strlit("--local");
    reveal_strlit("--no-browser");
    reveal_strlit("--headless");
    reveal_strlit("--version");
    reveal_strlit("-V");
    reveal_strlit("--help");
    reveal_strlit("-h");
    let words = seq![
        "--port"@,
        "--bind"@,
        "--local"@,
        "--no-browser"@,
        "--headless"@,
        "--version"@,
        "-V"@,
        "--help"@,
        "-h"@,
    ];
    assert(words[0][2] == 'p' && words[1][2] == 'b' && words[2][2] == 'l' && words[3][2] == 'n'
        && words[4][2] == 'h' && words[5][2] == 'v' && words[7][2] == 'h');
    assert(words[4].len() == 10 && words[7].len() == 6 && words[6].len() == 2 && words[8].len()
        == 2);
    assert(words[6][1] == 'V' && words[8][1] == 'h');
    after_one("--local"@, rest);
    after_one("--no-browser"@, rest);
    after_one("--headless"@, rest);
    after_one("--version"@, rest);
    after_one("-V"@, rest);
    after_one("--help"@, rest);
    after_one("-h"@, rest);
    after_one(word, rest);
    after_two("--bind"@, word, rest);
    after_two("--port"@, word, rest);
    assert(seq!["--bind"@].skip(1) =~= Seq::empty());
    assert(seq!["--port"@].skip(1) =~= Seq::empty());
}

proof fn after_one(a: Seq<char>, rest: Seq<Seq<char>>)
    ensures
        (seq![a] + rest)[0] == a,
        (seq![a] + rest).skip(1) == rest,
        (seq![a] + rest).len() > 0,
{
    assert((seq![a] + rest).skip(1) =~= rest);
}

proof fn after_two(a: Seq<char>, b: Seq<char>, rest: Seq<Seq<char>>)
    ensures
        (seq![a, b] + rest)[0] == a,
        (seq![a, b] + rest).skip(1)[0] == b,
        (seq![a, b] + rest).skip(1).skip(1) == rest,
        (seq![a, b] + rest).skip(1).len() > 0,
{
    assert((seq![a, b] + rest).skip(1).skip(1) =~= rest);
}

/// A word that means something on the command line.
pub open spec fn is_option(word: Seq<char>) -> bool {
    ||| word == "--port"@
    ||| word == "--bind"@
    ||| word == "--local"@
    ||| word == "--no-browser"@
    ||| word == "--headless"@
    ||| word == "--version"@
    ||| word == "-V"@
    ||| word == "--help"@
    ||| word == "-h"@
}

/// What a command line asks for is taken as it is.
pub proof fn parsed_is_taken_as_it_is(p: Parsed, i: int)
    ensures
        p@.bind == p.args.bind@,
        p@.port == p.args.port,
        p@.open_browser == p.args.open_browser,
        p@.purpose == p.purpose,
        p@.unknown.len() == p.unknown@.len(),
        0 <= i < p.unknown@.len() ==> p@.unknown[i] == p.unknown@[i]@,
{
}

/// Where nothing is asked for, the user interface is served to the network, on its own port, and
/// a browser is opened.
pub proof fn nothing_asked_means_the_defaults()
    ensures
        ({
            let p = scanned(Seq::empty(), defaults());
            &&& p.bind == "0.0.0.0"@
            &&& p.port == 8420
            &&& p.open_browser
            &&& p.purpose == Purpose::Run
            &&& p.unknown.len() == 0
        }),
{
}

/// Every tick counts one further, and beginning anew is the only exception.
pub proof fn ticks_count_up(n: u32, r: (u32, bool))
    requires
        call_ensures(tick, (n,), r),
    ensures
        n < u32::MAX ==> r.0 == n + 1,
        n == u32::MAX ==> r.0 == 0,
        r.1 <==> saves_at(r.0 as int),
{
}

/// Two ports of one machine have different addresses.
pub proof fn addresses_tell_ports_apart(host: &str, p: u16, q: u16, a: String, b: String)
    requires
        call_ensures(url, (host, p), a),
        call_ensures(url, (host, q), b),
        a@ == b@,
    ensures
        p == q,
{
    let front = "http://"@ + host@ + ":"@;
    assert(a@.skip(front.len() as int) =~= text::decimal(p as nat));
    assert(b@.skip(front.len() as int) =~= text::decimal(q as nat));
    text::decimal_is_injective(p as nat, q as nat);
}

} // verus!
