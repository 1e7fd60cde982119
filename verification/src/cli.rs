//! The command line: arguments, output, and what a run does step by step.

use crate::builder::{
    all_postings, file_records, record_entries, record_tables, BuildStats, SourceView,
};
use crate::index::open_tables;
use crate::matcher::{match_views, spans_of_pattern, Match, MatchView};
use crate::query::plan_is_required;
use crate::roundtrip::entries_fit;
use crate::scanner::{ScanOptions, DEFAULT_MAX_FILE_SIZE};
use crate::search::{
    brute_force_matches, built_index_describes_its_files, candidates_lose_no_match, ids_matches,
    required_plan, search_ids, searching_the_index_is_brute_force, source_contents,
};
use crate::sort::sorted;
use crate::tables::MAX_POSTINGS;
use crate::text::{decimal, digit, push_decimal, stored_path, text_equal, texts};
use vstd::prelude::*;
use vstd::string::{StrSliceExecFns, StringExecFns};

verus! {

/// Name of the index directory created inside the search root.
pub const INDEX_DIR_NAME: &'static str = ".rgx";

/// What `--help` prints.
pub const USAGE: &'static str = "rgx — fast indexed regex search (Cursor 'fast regex search' paper)

USAGE:
    rgx [OPTIONS] <PATTERN> [PATH]

ARGUMENTS:
    <PATTERN>          Regex pattern to search for
    [PATH]             Directory to search (default: .)

OPTIONS:
    -h, --help         Print help
    -i, --ignore-case  Case-insensitive search
        --build        (Re)build the index before searching
        --update       Incrementally update the index (only changed files
                       are re-read; falls back to a full rebuild if needed)
        --no-index     Search without using the index (brute force)
        --stats        Print index statistics
        --time         Print timing breakdown
        --json         Emit JSON Lines with submatch byte offsets
        --follow       Follow symbolic links while scanning

EXIT CODES:
    0   matches found
    1   no matches
    2   error
";

/// Parsed command-line configuration.
#[derive(Debug, Clone)]
pub struct Config {
    /// The regex pattern to search for.
    pub pattern: String,
    /// Search root directory (`.` when empty).
    pub root: String,
    /// Case-insensitive matching (`-i`).
    pub ignore_case: bool,
    /// Rebuild the index before searching (`--build`).
    pub build: bool,
    /// Update the index before searching (`--update`).
    pub update: bool,
    /// Skip the index entirely (`--no-index`).
    pub no_index: bool,
    /// Print index statistics to stderr (`--stats`).
    pub stats: bool,
    /// Print timing breakdown to stderr (`--time`).
    pub time: bool,
    /// Emit JSON Lines with submatch offsets (`--json`).
    pub json: bool,
    /// Follow symbolic links while scanning (`--follow`).
    pub follow_symlinks: bool,
}

/// What a [`Config`] stands for.
#[verifier::ext_equal]
pub ghost struct ConfigView {
    pub pattern: Seq<char>,
    pub root: Seq<char>,
    pub ignore_case: bool,
    pub build: bool,
    pub update: bool,
    pub no_index: bool,
    pub stats: bool,
    pub time: bool,
    pub json: bool,
    pub follow_symlinks: bool,
}

impl View for Config {
    type V = ConfigView;

    open spec fn view(&self) -> ConfigView {
        ConfigView {
            pattern: self.pattern@,
            root: self.root@,
            ignore_case: self.ignore_case,
            build: self.build,
            update: self.update,
            no_index: self.no_index,
            stats: self.stats,
            time: self.time,
            json: self.json,
            follow_symlinks: self.follow_symlinks,
        }
    }
}

/// The configuration without any arguments.
pub open spec fn empty_config() -> ConfigView {
    ConfigView {
        pattern: Seq::empty(),
        root: Seq::empty(),
        ignore_case: false,
        build: false,
        update: false,
        no_index: false,
        stats: false,
        time: false,
        json: false,
        follow_symlinks: false,
    }
}

/// What has been read of the arguments so far.
#[verifier::ext_equal]
pub ghost struct ArgsView {
    pub config: ConfigView,
    pub positional: Seq<Seq<char>>,
    pub end_flags: bool,
}

/// Why reading arguments stops early.
pub ghost enum Stop {
    /// Help was asked for.
    Help,
    /// There is no such option.
    Unknown(Seq<char>),
}

/// The argument asks for help.
pub open spec fn is_help(arg: Seq<char>) -> bool {
    arg == "-h"@ || arg == "--help"@
}

/// The configuration with an option switched on, if there is such an option.
pub open spec fn with_option(config: ConfigView, arg: Seq<char>) -> Option<ConfigView> {
    if arg == "-i"@ || arg == "--ignore-case"@ {
        Some(ConfigView { ignore_case: true, ..config })
    } else if arg == "--build"@ {
        Some(ConfigView { build: true, ..config })
    } else if arg == "--update"@ {
        Some(ConfigView { update: true, ..config })
    } else if arg == "--no-index"@ {
        Some(ConfigView { no_index: true, ..config })
    } else if arg == "--stats"@ {
        Some(ConfigView { stats: true, ..config })
    } else if arg == "--time"@ {
        Some(ConfigView { time: true, ..config })
    } else if arg == "--json"@ {
        Some(ConfigView { json: true, ..config })
    } else if arg == "--follow"@ {
        Some(ConfigView { follow_symlinks: true, ..config })
    } else {
        None
    }
}

/// The argument is written like an option: a dash and something more.
pub open spec fn is_option(arg: Seq<char>) -> bool {
    arg.len() > 1 && arg[0] == '-'
}

/// One more argument. The first `--` ends the options; after it, and for what
/// is not written like an option, an argument stands for itself.
pub open spec fn read_arg(args: ArgsView, arg: Seq<char>) -> Result<ArgsView, Stop> {
    if !args.end_flags && arg == "--"@ {
        Ok(ArgsView { end_flags: true, ..args })
    } else if !args.end_flags && is_option(arg) {
        if is_help(arg) {
            Err(Stop::Help)
        } else {
            match with_option(args.config, arg) {
                Some(config) => Ok(ArgsView { config, ..args }),
                None => Err(Stop::Unknown(arg)),
            }
        }
    } else {
        Ok(ArgsView { positional: args.positional.push(arg), ..args })
    }
}

/// The first `k` arguments.
pub open spec fn read_args(args: Seq<Seq<char>>, k: int) -> Result<ArgsView, Stop>
    decreases k,
{
    if k <= 0 {
        Ok(ArgsView { config: empty_config(), positional: Seq::empty(), end_flags: false })
    } else {
        match read_args(args, k - 1) {
            Ok(read) => read_arg(read, args[k - 1]),
            Err(stop) => Err(stop),
        }
    }
}

/// What the arguments amount to: a configuration, a call for help, or an error.
pub open spec fn parsed_args(args: Seq<Seq<char>>) -> Result<Option<ConfigView>, Seq<char>> {
    match read_args(args, args.len() as int) {
        Err(Stop::Help) => Ok(None),
        Err(Stop::Unknown(arg)) => Err("unknown option: "@ + arg),
        Ok(read) => if read.positional.len() == 0 {
            Err("missing PATTERN"@)
        } else if read.positional.len() == 1 {
            Ok(Some(ConfigView { pattern: read.positional[0], ..read.config }))
        } else if read.positional.len() == 2 {
            Ok(
                Some(
                    ConfigView {
                        pattern: read.positional[0],
                        root: read.positional[1],
                        ..read.config
                    },
                ),
            )
        } else {
            Err("too many arguments"@)
        },
    }
}

/// The result of parsing arguments.
pub open spec fn parse_view(result: Result<Option<Config>, String>) -> Result<
    Option<ConfigView>,
    Seq<char>,
> {
    match result {
        Ok(Some(config)) => Ok(Some(config@)),
        Ok(None) => Ok(None),
        Err(message) => Err(message@),
    }
}

/// Whether an argument is written like an option.
fn looks_like_option(arg: &str) -> (yes: bool)
    ensures
        yes == is_option(arg@),
{
    if arg.unicode_len() > 1 {
        arg.get_char(0) == '-'
    } else {
        false
    }
}

/// Switches an option on. `false` if there is no such option.
fn set_option(config: &mut Config, arg: &str) -> (known: bool)
    ensures
        known == (with_option(old(config)@, arg@) is Some),
        known ==> final(config)@ == with_option(old(config)@, arg@)->0,
{
    if text_equal(arg, "-i") || text_equal(arg, "--ignore-case") {
        config.ignore_case = true;
    } else if text_equal(arg, "--build") {
        config.build = true;
    } else if text_equal(arg, "--update") {
        config.update = true;
    } else if text_equal(arg, "--no-index") {
        config.no_index = true;
    } else if text_equal(arg, "--stats") {
        config.stats = true;
    } else if text_equal(arg, "--time") {
        config.time = true;
    } else if text_equal(arg, "--json") {
        config.json = true;
    } else if text_equal(arg, "--follow") {
        config.follow_symlinks = true;
    } else {
        return false;
    }
    true
}

/// Once reading stops, more arguments change nothing.
proof fn lemma_stop_is_final(args: Seq<Seq<char>>, i: int, k: int)
    requires
        i <= k,
        read_args(args, i) is Err,
    ensures
        read_args(args, k) == read_args(args, i),
    decreases k - i,
{
    if i < k {
        lemma_stop_is_final(args, i, k - 1);
    }
}

/// Parse command-line arguments (program args, without the binary name).
///
/// Returns `Ok(None)` when `-h`/`--help` was requested (the caller prints
/// [`USAGE`]).
pub fn parse_args(args: Vec<String>) -> (result: Result<Option<Config>, String>)
    ensures
        parse_view(result) == parsed_args(texts(args@)),
{
    let ghost views = texts(args@);
    let mut config = Config {
        pattern: String::new(),
        root: String::new(),
        ignore_case: false,
        build: false,
        update: false,
        no_index: false,
        stats: false,
        time: false,
        json: false,
        follow_symlinks: false,
    };
    let mut positional: Vec<String> = Vec::new();
    let mut end_flags: bool = false;
    let mut i: usize = 0;
    assert(config@ =~= empty_config());
    assert(texts(positional@) =~= Seq::empty());
    while i < args.len()
        invariant
            i <= args@.len(),
            views == texts(args@),
            read_args(views, i as int) == Ok::<ArgsView, Stop>(
                ArgsView { config: config@, positional: texts(positional@), end_flags },
            ),
        decreases args@.len() - i,
    {
        let arg = args[i].as_str();
        assert(views[i as int] == arg@);
        let ghost before = ArgsView {
            config: config@,
            positional: texts(positional@),
            end_flags,
        };
        assert(read_args(views, i + 1) == read_arg(before, arg@));
        if !end_flags && text_equal(arg, "--") {
            end_flags = true;
        } else if !end_flags && looks_like_option(arg) {
            if text_equal(arg, "-h") || text_equal(arg, "--help") {
                proof {
                    lemma_stop_is_final(views, i + 1, views.len() as int);
                }
                return Ok(None);
            }
            if !set_option(&mut config, arg) {
                proof {
                    lemma_stop_is_final(views, i + 1, views.len() as int);
                }
                let mut message = "unknown option: ".to_owned();
                message.append(arg);
                return Err(message);
            }
        } else {
            let ghost had = positional@;
            positional.push(args[i].clone());
            assert(texts(positional@) =~= texts(had).push(arg@));
        }
        i += 1;
    }
    let count: usize = positional.len();
    assert(texts(positional@).len() == count);
    if count == 0 {
        Err("missing PATTERN".to_owned())
    } else if count == 1 {
        config.pattern = positional[0].clone();
        Ok(Some(config))
    } else if count == 2 {
        config.pattern = positional[0].clone();
        config.root = positional[1].clone();
        Ok(Some(config))
    } else {
        Err("too many arguments".to_owned())
    }
}

/// After `--` any argument is the pattern, however it is written.
pub proof fn double_dash_lets_any_pattern_through(pattern: Seq<char>)
    ensures
        parsed_args(seq!["--"@, pattern]) == Ok::<Option<ConfigView>, Seq<char>>(
            Some(ConfigView { pattern, ..empty_config() }),
        ),
{
    let args = seq!["--"@, pattern];
    reveal_with_fuel(read_args, 3);
    assert(args[0] == "--"@ && args[1] == pattern);
    let read = read_args(args, 2);
    assert(read->Ok_0.positional =~= seq![pattern]);
}

/// Options before other arguments can stand in any order, and as often as one
/// likes: what they switch on is the same.
pub proof fn options_commute(config: ConfigView, a: Seq<char>, b: Seq<char>)
    requires
        with_option(config, a) is Some,
        with_option(config, b) is Some,
    ensures
        with_option(with_option(config, a)->0, b) is Some,
        with_option(with_option(config, a)->0, b) == with_option(with_option(config, b)->0, a),
        with_option(with_option(config, a)->0, a) == with_option(config, a),
{
}

/// The options end before argument `i`: there is a `--` in front of it.
pub open spec fn is_behind_double_dash(args: Seq<Seq<char>>, i: int) -> bool {
    exists|j: int| 0 <= j < i && #[trigger] args[j] == "--"@
}

/// Argument `i` is given as an option.
pub open spec fn is_option_at(args: Seq<Seq<char>>, i: int) -> bool {
    !is_behind_double_dash(args, i) && args[i] != "--"@ && args[i].len() > 1 && args[i][0] == '-'
}

/// Argument `i` stands for itself: it follows a `--`, or is not written like an
/// option.
pub open spec fn is_plain_at(args: Seq<Seq<char>>, i: int) -> bool {
    is_behind_double_dash(args, i) || args[i].len() <= 1 || args[i][0] != '-'
}

/// One of the first `k` arguments is the option `name`.
pub open spec fn has_option(args: Seq<Seq<char>>, k: int, name: Seq<char>) -> bool {
    exists|i: int| 0 <= i < k && is_option_at(args, i) && #[trigger] args[i] == name
}

/// There is an option of this name.
pub open spec fn is_known_option(name: Seq<char>) -> bool {
    ||| name == "-i"@
    ||| name == "--ignore-case"@
    ||| name == "--build"@
    ||| name == "--update"@
    ||| name == "--no-index"@
    ||| name == "--stats"@
    ||| name == "--time"@
    ||| name == "--json"@
    ||| name == "--follow"@
}

proof fn lemma_option_names()
    ensures
        is_option("-i"@),
        is_option("-h"@),
        is_option("--"@),
        "-i"@ != "--"@,
        "-h"@ != "--"@,
        "--ignore-case"@.len() > 2,
        "--build"@.len() > 2,
        "--update"@.len() > 2,
        "--no-index"@.len() > 2,
        "--stats"@.len() > 2,
        "--time"@.len() > 2,
        "--json"@.len() > 2,
        "--follow"@.len() > 2,
        "--help"@.len() > 2,
        "--"@.len() == 2,
{
    reveal_strlit("-i");
    reveal_strlit("-h");
    reveal_strlit("--");
    reveal_strlit("--ignore-case");
    reveal_strlit("--build");
    reveal_strlit("--update");
    reveal_strlit("--no-index");
    reveal_strlit("--stats");
    reveal_strlit("--time");
    reveal_strlit("--json");
    reveal_strlit("--follow");
    reveal_strlit("--help");
    assert("-i"@[1] != "--"@[1]);
    assert("-h"@[1] != "--"@[1]);
}

/// Whether one more argument is an option of some name.
proof fn lemma_has_option_step(args: Seq<Seq<char>>, k: int, name: Seq<char>)
    requires
        0 < k <= args.len(),
    ensures
        has_option(args, k, name) <==> has_option(args, k - 1, name) || (is_option_at(args, k - 1)
            && args[k - 1] == name),
{
    if has_option(args, k - 1, name) {
        let i = choose|i: int|
            0 <= i < k - 1 && is_option_at(args, i) && #[trigger] args[i] == name;
        assert(is_option_at(args, i) && args[i] == name);
    }
    if is_option_at(args, k - 1) && args[k - 1] == name {
        assert(is_option_at(args, k - 1) && args[k - 1] == name);
    }
}

/// The plain ones among the first `k` arguments.
spec fn plain_args(args: Seq<Seq<char>>, k: int) -> Seq<int>
    decreases k,
{
    if k <= 0 {
        Seq::empty()
    } else if is_plain_at(args, k - 1) {
        plain_args(args, k - 1).push(k - 1)
    } else {
        plain_args(args, k - 1)
    }
}

proof fn lemma_plain_args(args: Seq<Seq<char>>, k: int)
    requires
        0 <= k <= args.len(),
    ensures
        forall|i: int|
            0 <= i < plain_args(args, k).len() ==> 0 <= #[trigger] plain_args(args, k)[i] < k
                && is_plain_at(args, plain_args(args, k)[i]),
        forall|i: int, j: int|
            0 <= i < j < plain_args(args, k).len() ==> #[trigger] plain_args(args, k)[i]
                < #[trigger] plain_args(args, k)[j],
        forall|x: int|
            0 <= x < k && is_plain_at(args, x) ==> #[trigger] plain_args(args, k).contains(x),
    decreases k,
{
    if k > 0 {
        lemma_plain_args(args, k - 1);
        let (rest, here) = (plain_args(args, k - 1), plain_args(args, k));
        assert forall|x: int| 0 <= x < k && is_plain_at(args, x) implies #[trigger] here.contains(
            x,
        ) by {
            if x < k - 1 {
                assert(rest.contains(x));
                let i = rest.index_of(x);
                assert(here[i] == x);
            } else {
                assert(here[here.len() - 1] == x);
            }
        }
    }
}

/// What has been read after `k` arguments, if there was nothing to stop at.
#[verifier::rlimit(50)]
proof fn lemma_read_args(args: Seq<Seq<char>>, k: int)
    requires
        0 <= k <= args.len(),
        read_args(args, k) is Ok,
    ensures
        ({
            let read = read_args(args, k)->Ok_0;
            let c = read.config;
            &&& read.end_flags == is_behind_double_dash(args, k)
            &&& c.pattern.len() == 0 && c.root.len() == 0
            &&& c.ignore_case == (has_option(args, k, "-i"@) || has_option(
                args,
                k,
                "--ignore-case"@,
            ))
            &&& c.build == has_option(args, k, "--build"@)
            &&& c.update == has_option(args, k, "--update"@)
            &&& c.no_index == has_option(args, k, "--no-index"@)
            &&& c.stats == has_option(args, k, "--stats"@)
            &&& c.time == has_option(args, k, "--time"@)
            &&& c.json == has_option(args, k, "--json"@)
            &&& c.follow_symlinks == has_option(args, k, "--follow"@)
            &&& read.positional.len() == plain_args(args, k).len()
            &&& forall|i: int|
                0 <= i < plain_args(args, k).len() ==> #[trigger] read.positional[i]
                    == args[plain_args(args, k)[i]]
            &&& forall|i: int|
                0 <= i < k && is_option_at(args, i) ==> is_known_option(#[trigger] args[i])
        }),
    decreases k,
{
    lemma_option_names();
    if k > 0 {
        lemma_read_args(args, k - 1);
        let arg = args[k - 1];
        let read = read_args(args, k - 1)->Ok_0;
        let now = read_args(args, k)->Ok_0;
        assert(read_args(args, k) == read_arg(read, arg));
        lemma_has_option_step(args, k, "-i"@);
        lemma_has_option_step(args, k, "--ignore-case"@);
        lemma_has_option_step(args, k, "--build"@);
        lemma_has_option_step(args, k, "--update"@);
        lemma_has_option_step(args, k, "--no-index"@);
        lemma_has_option_step(args, k, "--stats"@);
        lemma_has_option_step(args, k, "--time"@);
        lemma_has_option_step(args, k, "--json"@);
        lemma_has_option_step(args, k, "--follow"@);
        assert(is_behind_double_dash(args, k) <==> is_behind_double_dash(args, k - 1) || arg
            == "--"@) by {
            if is_behind_double_dash(args, k - 1) {
                let j = choose|j: int| 0 <= j < k - 1 && #[trigger] args[j] == "--"@;
                assert(args[j] == "--"@);
            }
            if arg == "--"@ {
                assert(args[k - 1] == "--"@);
            }
        }
        reveal_strlit("-i");
        reveal_strlit("--");
        reveal_strlit("--ignore-case");
        reveal_strlit("--build");
        reveal_strlit("--update");
        reveal_strlit("--no-index");
        reveal_strlit("--stats");
        reveal_strlit("--time");
        reveal_strlit("--json");
        reveal_strlit("--follow");
        lemma_names_differ();
    }
}

/// No two options have one name.
proof fn lemma_names_differ()
    ensures
        "--build"@ != "--update"@,
        "--build"@ != "--no-index"@,
        "--build"@ != "--stats"@,
        "--build"@ != "--time"@,
        "--build"@ != "--json"@,
        "--build"@ != "--follow"@,
        "--update"@ != "--no-index"@,
        "--update"@ != "--stats"@,
        "--update"@ != "--time"@,
        "--update"@ != "--json"@,
        "--update"@ != "--follow"@,
        "--no-index"@ != "--stats"@,
        "--no-index"@ != "--time"@,
        "--no-index"@ != "--json"@,
        "--no-index"@ != "--follow"@,
        "--stats"@ != "--time"@,
        "--stats"@ != "--json"@,
        "--stats"@ != "--follow"@,
        "--time"@ != "--json"@,
        "--time"@ != "--follow"@,
        "--json"@ != "--follow"@,
        "-i"@.len() == 2,
        "--ignore-case"@.len() == 13,
        "--build"@.len() == 7,
        "--update"@.len() == 8,
        "--no-index"@.len() == 10,
        "--stats"@.len() == 7,
        "--time"@.len() == 6,
        "--json"@.len() == 6,
        "--follow"@.len() == 8,
{
    reveal_strlit("-i");
    reveal_strlit("--ignore-case");
    reveal_strlit("--build");
    reveal_strlit("--update");
    reveal_strlit("--no-index");
    reveal_strlit("--stats");
    reveal_strlit("--time");
    reveal_strlit("--json");
    reveal_strlit("--follow");
    assert("--build"@[2] != "--stats"@[2]);
    assert("--update"@[2] != "--follow"@[2]);
    assert("--time"@[2] != "--json"@[2]);
}

/// Arguments that are understood switch on just what their options name, and
/// their one or two plain arguments are the pattern and the root. Options stand
/// anywhere in front of a `--`, and are known ones.
pub proof fn arguments_mean_what_they_name(args: Seq<Seq<char>>)
    ensures
        parsed_args(args) matches Ok(Some(config)) ==> {
            let n = args.len() as int;
            &&& config.ignore_case == (has_option(args, n, "-i"@) || has_option(
                args,
                n,
                "--ignore-case"@,
            ))
            &&& config.build == has_option(args, n, "--build"@)
            &&& config.update == has_option(args, n, "--update"@)
            &&& config.no_index == has_option(args, n, "--no-index"@)
            &&& config.stats == has_option(args, n, "--stats"@)
            &&& config.time == has_option(args, n, "--time"@)
            &&& config.json == has_option(args, n, "--json"@)
            &&& config.follow_symlinks == has_option(args, n, "--follow"@)
            &&& forall|i: int|
                0 <= i < n && is_option_at(args, i) ==> is_known_option(#[trigger] args[i])
            &&& exists|p: int, r: int|
                #![trigger args[p], args[r]]
                {
                    &&& 0 <= p <= r < n
                    &&& is_plain_at(args, p) && is_plain_at(args, r)
                    &&& forall|x: int| 0 <= x < n && is_plain_at(args, x) ==> x == p || x == r
                    &&& config.pattern == args[p]
                    &&& config.root == if p < r {
                        args[r]
                    } else {
                        Seq::empty()
                    }
                }
        },
{
    let n = args.len() as int;
    if let Ok(Some(config)) = parsed_args(args) {
        lemma_read_args(args, n);
        lemma_plain_args(args, n);
        let read = read_args(args, n)->Ok_0;
        let plain = plain_args(args, n);
        let (p, r) = (plain[0], plain[plain.len() - 1]);
        assert(0 <= p <= r < n) by {
            if plain.len() == 2 {
                assert(plain[0] < plain[1]);
            }
        }
        assert forall|x: int| 0 <= x < n && is_plain_at(args, x) implies x == p || x == r by {
            assert(plain.contains(x));
            let i = plain.index_of(x);
            assert(plain[i] == x);
        }
        assert(read.positional[0] == args[p]);
        assert(read.positional[plain.len() - 1] == args[r]);
        assert(args[p] == args[p] && args[r] == args[r]);
        if plain.len() == 1 {
            assert(config.root =~= Seq::empty());
        }
    }
}

/// Where reading stops: at the first option that is a call for help or that
/// there is not.
proof fn lemma_stop(args: Seq<Seq<char>>, k: int) -> (at: int)
    requires
        0 <= k <= args.len(),
        read_args(args, k) is Err,
    ensures
        0 <= at < k,
        read_args(args, at) is Ok,
        is_option_at(args, at),
        !is_known_option(args[at]),
        read_args(args, k) == Err::<ArgsView, Stop>(
            if is_help(args[at]) {
                Stop::Help
            } else {
                Stop::Unknown(args[at])
            },
        ),
    decreases k,
{
    if read_args(args, k - 1) is Err {
        lemma_stop(args, k - 1)
    } else {
        lemma_read_args(args, k - 1);
        lemma_option_names();
        reveal_strlit("-i");
        reveal_strlit("-h");
        reveal_strlit("--help");
        lemma_names_differ();
        assert("-i"@[1] != "-h"@[1]);
        assert("--help"@.len() == 6);
        reveal_strlit("--time");
        reveal_strlit("--json");
        assert("--help"@[2] != "--time"@[2]);
        assert("--help"@[2] != "--json"@[2]);
        k - 1
    }
}

/// The first option that is not a known one decides: help, if it asks for that,
/// and otherwise an error that names it. Without one, it is an error to give no
/// plain argument, or more than two.
pub proof fn other_arguments_are_explained(args: Seq<Seq<char>>)
    ensures
        parsed_args(args) == Ok::<Option<ConfigView>, Seq<char>>(None) ==> exists|at: int|
            0 <= at < args.len() && is_option_at(args, at) && (#[trigger] args[at] == "-h"@
                || args[at] == "--help"@) && forall|i: int|
                0 <= i < at && is_option_at(args, i) ==> is_known_option(#[trigger] args[i]),
        parsed_args(args) matches Err(message) ==> {
            ||| exists|at: int|
                0 <= at < args.len() && is_option_at(args, at) && !is_known_option(
                    #[trigger] args[at],
                ) && args[at] != "-h"@ && args[at] != "--help"@ && message == "unknown option: "@
                    + args[at] && forall|i: int|
                    0 <= i < at && is_option_at(args, i) ==> is_known_option(#[trigger] args[i])
            ||| message == "missing PATTERN"@ && (forall|i: int|
                0 <= i < args.len() && is_option_at(args, i) ==> is_known_option(
                    #[trigger] args[i],
                )) && forall|x: int| 0 <= x < args.len() ==> !#[trigger] is_plain_at(args, x)
            ||| message == "too many arguments"@ && (forall|i: int|
                0 <= i < args.len() && is_option_at(args, i) ==> is_known_option(
                    #[trigger] args[i],
                )) && exists|x: int, y: int, z: int|
                0 <= x < y < z < args.len() && #[trigger] is_plain_at(args, x)
                    && #[trigger] is_plain_at(args, y) && #[trigger] is_plain_at(args, z)
        },
        (exists|at: int|
            0 <= at < args.len() && is_option_at(args, at) && !is_known_option(
                #[trigger] args[at],
            )) ==> parsed_args(args) is Err || parsed_args(args)->Ok_0 is None,
{
    let n = args.len() as int;
    if read_args(args, n) is Err {
        let at = lemma_stop(args, n);
        lemma_read_args(args, at);
        assert(args[at] == args[at]);
    } else {
        lemma_read_args(args, n);
        lemma_plain_args(args, n);
        let plain = plain_args(args, n);
        if plain.len() == 0 {
            assert forall|x: int| 0 <= x < n implies !#[trigger] is_plain_at(args, x) by {
                if is_plain_at(args, x) {
                    assert(plain.contains(x));
                }
            }
        } else if plain.len() > 2 {
            assert(plain[0] < plain[1] && plain[1] < plain[2]);
            assert(is_plain_at(args, plain[0]) && is_plain_at(args, plain[1]) && is_plain_at(
                args,
                plain[2],
            ));
        }
    }
}

/// What a call of the program comes to before it looks at any file.
pub enum Launch {
    /// Run with this configuration.
    Run(Config),
    /// Write `out` to standard output and `err` to standard error, and exit.
    Exit { code: i32, out: String, err: String },
}

/// A call of the program with these arguments: `--help` prints the usage and
/// exits with 0, wrong arguments are explained and exit with 2, and anything
/// else runs.
pub fn execute(args: Vec<String>) -> (launch: Launch)
    ensures
        match (parsed_args(texts(args@)), launch) {
            (Ok(Some(config)), Launch::Run(run)) => run@ == config,
            (Ok(None), Launch::Exit { code, out, err }) => code == 0 && out@ == USAGE@ && err@
                == Seq::<char>::empty(),
            (Err(message), Launch::Exit { code, out, err }) => code == 2 && out@ == Seq::<
                char,
            >::empty() && err@ == "rgx: "@ + message + "\n\n"@ + USAGE@ + "\n"@,
            _ => false,
        },
{
    match parse_args(args) {
        Ok(Some(config)) => Launch::Run(config),
        Ok(None) => Launch::Exit { code: 0, out: USAGE.to_owned(), err: String::new() },
        Err(message) => {
            let mut err = "rgx: ".to_owned();
            err.append(message.as_str());
            err.append("\n\n");
            err.append(USAGE);
            err.append("\n");
            Launch::Exit { code: 2, out: String::new(), err }
        },
    }
}

/// The [`ScanOptions`] derived from a parsed [`Config`].
pub fn scan_opts(config: &Config) -> (opts: ScanOptions)
    ensures
        opts == (ScanOptions {
            max_file_size: DEFAULT_MAX_FILE_SIZE,
            follow_symlinks: config.follow_symlinks,
        }),
{
    ScanOptions { max_file_size: DEFAULT_MAX_FILE_SIZE, follow_symlinks: config.follow_symlinks }
}

/// The directory to search: the current one if none was given.
pub fn search_root(config: &Config) -> (root: String)
    ensures
        root@ == if config.root@.len() == 0 {
            "."@
        } else {
            config.root@
        },
{
    if config.root.as_str().unicode_len() == 0 {
        ".".to_owned()
    } else {
        config.root.clone()
    }
}

/// The hexadecimal digit `d`, in lower case.
pub open spec fn hex_digit(d: int) -> char {
    if d < 10 {
        digit(d)
    } else {
        (87 + d) as char
    }
}

/// A character as it stands in a JSON string.
pub open spec fn json_char(c: char) -> Seq<char> {
    if c == '"' {
        seq!['\\', '"']
    } else if c == '\\' {
        seq!['\\', '\\']
    } else if c == '\n' {
        seq!['\\', 'n']
    } else if c == '\r' {
        seq!['\\', 'r']
    } else if c == '\t' {
        seq!['\\', 't']
    } else if (c as u32) < 0x20 {
        seq!['\\', 'u', '0', '0', hex_digit(c as int / 16), hex_digit(c as int % 16)]
    } else {
        seq![c]
    }
}

/// The characters of a text as they stand in a JSON string.
pub open spec fn json_chars(text: Seq<char>) -> Seq<char>
    decreases text.len(),
{
    if text.len() == 0 {
        Seq::empty()
    } else {
        json_chars(text.drop_last()) + json_char(text.last())
    }
}

/// A text as a JSON string literal.
pub open spec fn json_literal(text: Seq<char>) -> Seq<char> {
    seq!['"'] + json_chars(text) + seq!['"']
}

/// Appends a character as it stands in a JSON string.
fn push_json_char(out: &mut String, c: char)
    ensures
        final(out)@ == old(out)@ + json_char(c),
{
    let ghost base = out@;
    if c == '"' {
        out.push('\\');
        out.push('"');
    } else if c == '\\' {
        out.push('\\');
        out.push('\\');
    } else if c == '\n' {
        out.push('\\');
        out.push('n');
    } else if c == '\r' {
        out.push('\\');
        out.push('r');
    } else if c == '\t' {
        out.push('\\');
        out.push('t');
    } else if (c as u32) < 0x20 {
        let code: u8 = c as u8;
        let low: u8 = code % 16;
        out.push('\\');
        out.push('u');
        out.push('0');
        out.push('0');
        out.push((48 + code / 16) as char);
        out.push(
            if low < 10 {
                (48 + low) as char
            } else {
                (87 + low) as char
            },
        );
    } else {
        out.push(c);
    }
    assert(out@ =~= base + json_char(c));
}

/// Escape a string for a JSON string literal.
pub fn json_escape(s: &str) -> (literal: String)
    ensures
        literal@ == json_literal(s@),
{
    let mut out = String::new();
    out.push('"');
    assert(out@ =~= seq!['"'] + json_chars(s@.take(0)));
    for c in it: s.chars()
        invariant
            it.seq() == s@,
            out@ == seq!['"'] + json_chars(s@.take(it.index())),
    {
        push_json_char(&mut out, c);
        assert(s@.take(it.index() + 1).drop_last() =~= s@.take(it.index()));
        assert(out@ =~= seq!['"'] + json_chars(s@.take(it.index() + 1)));
    }
    assert(s@.take(s@.len() as int) =~= s@);
    out.push('"');
    assert(out@ =~= json_literal(s@));
    out
}

/// The value of a lower-case hexadecimal digit.
pub open spec fn hex_value(c: char) -> Option<int> {
    if '0' <= c <= '9' {
        Some(c as int - 48)
    } else if 'a' <= c <= 'f' {
        Some(c as int - 87)
    } else {
        None
    }
}

/// What the inside of a JSON string stands for, from its first character on.
/// Quotes and control characters may not stand there as they are.
pub open spec fn json_decoded(body: Seq<char>) -> Option<Seq<char>>
    decreases body.len(),
{
    if body.len() == 0 {
        Some(Seq::empty())
    } else if body[0] == '\\' {
        if body.len() < 2 {
            None
        } else if body[1] == 'u' {
            if body.len() < 6 {
                None
            } else {
                match (
                    hex_value(body[2]),
                    hex_value(body[3]),
                    hex_value(body[4]),
                    hex_value(body[5]),
                    json_decoded(body.skip(6)),
                ) {
                    (Some(a), Some(b), Some(c), Some(d), Some(rest)) => Some(
                        seq![(4096 * a + 256 * b + 16 * c + d) as char] + rest,
                    ),
                    _ => None,
                }
            }
        } else {
            let meant: Option<char> = if body[1] == '"' {
                Some('"')
            } else if body[1] == '\\' {
                Some('\\')
            } else if body[1] == 'n' {
                Some('\n')
            } else if body[1] == 'r' {
                Some('\r')
            } else if body[1] == 't' {
                Some('\t')
            } else {
                None
            };
            match (meant, json_decoded(body.skip(2))) {
                (Some(c), Some(rest)) => Some(seq![c] + rest),
                _ => None,
            }
        }
    } else if body[0] == '"' || (body[0] as u32) < 0x20 {
        None
    } else {
        match json_decoded(body.skip(1)) {
            Some(rest) => Some(seq![body[0]] + rest),
            None => None,
        }
    }
}

/// One escaped character in front of a body reads as that character.
proof fn lemma_json_char_decodes(c: char, rest: Seq<char>)
    requires
        json_decoded(rest) is Some,
    ensures
        json_decoded(json_char(c) + rest) == Some(seq![c] + json_decoded(rest)->0),
{
    let body = json_char(c) + rest;
    if c == '"' || c == '\\' || c == '\n' || c == '\r' || c == '\t' {
        assert(body.skip(2) =~= rest);
    } else if (c as u32) < 0x20 {
        assert(body.skip(6) =~= rest);
        let (h, l) = (c as int / 16, c as int % 16);
        assert(body[4] == hex_digit(h) && body[5] == hex_digit(l));
        assert(hex_value(hex_digit(h)) == Some(h));
        assert(hex_value(hex_digit(l)) == Some(l));
        assert(hex_value('0') == Some(0int));
        assert(16 * h + l == c as int);
    } else {
        assert(body.skip(1) =~= rest);
    }
}

/// Escaping from the front is the same as from the back.
proof fn lemma_json_chars_front(text: Seq<char>)
    requires
        text.len() > 0,
    ensures
        json_chars(text) == json_char(text[0]) + json_chars(text.drop_first()),
    decreases text.len(),
{
    let rest = text.drop_first();
    if rest.len() == 0 {
        assert(text.drop_last() =~= rest);
        assert(json_chars(rest) =~= Seq::empty());
        assert(json_chars(text) =~= json_char(text[0]) + json_chars(rest));
    } else {
        let init = text.drop_last();
        lemma_json_chars_front(init);
        assert(init.drop_first() =~= rest.drop_last());
        assert(json_chars(text) =~= json_char(text[0]) + json_chars(rest));
    }
}

/// A JSON string literal is well formed and reads back as the text that was
/// escaped: between its quotes there is no bare quote, backslash or control
/// character.
pub proof fn json_literal_reads_back(text: Seq<char>)
    ensures
        json_literal(text).len() >= 2,
        json_literal(text)[0] == '"',
        json_literal(text).last() == '"',
        json_decoded(json_literal(text).subrange(1, json_literal(text).len() - 1)) == Some(text),
    decreases text.len(),
{
    let body = json_chars(text);
    assert(json_literal(text).subrange(1, json_literal(text).len() - 1) =~= body);
    lemma_json_body_reads_back(text);
}

proof fn lemma_json_body_reads_back(text: Seq<char>)
    ensures
        json_decoded(json_chars(text)) == Some(text),
    decreases text.len(),
{
    if text.len() == 0 {
        assert(json_chars(text) =~= Seq::empty());
        assert(text =~= Seq::empty());
    } else {
        let rest = text.drop_first();
        lemma_json_body_reads_back(rest);
        lemma_json_chars_front(text);
        lemma_json_char_decodes(text[0], json_chars(rest));
        assert(seq![text[0]] + rest =~= text);
    }
}

/// One matching line as text: path, line number and line.
pub open spec fn plain_line(m: MatchView) -> Seq<char> {
    m.path + ":"@ + decimal(m.line as nat) + ":"@ + m.text + "\n"@
}

/// The first `k` submatches as JSON objects.
pub open spec fn submatch_list(submatches: Seq<(usize, usize)>, k: int) -> Seq<char>
    decreases k,
{
    if k <= 0 {
        Seq::empty()
    } else {
        let before = if k > 1 {
            submatch_list(submatches, k - 1) + ","@
        } else {
            Seq::empty()
        };
        before + "{\"start\":"@ + decimal(submatches[k - 1].0 as nat) + ",\"end\":"@ + decimal(
            submatches[k - 1].1 as nat,
        ) + "}"@
    }
}

/// One matching line as a JSON object.
pub open spec fn json_line(m: MatchView) -> Seq<char> {
    "{\"path\":"@ + json_literal(m.path) + ",\"line_number\":"@ + decimal(m.line as nat)
        + ",\"line\":"@ + json_literal(m.text) + ",\"submatches\":["@ + submatch_list(
        m.submatches,
        m.submatches.len() as int,
    ) + "]}\n"@
}

/// The first `k` matches as they are printed, a line each.
pub open spec fn printed(matches: Seq<MatchView>, json: bool, k: int) -> Seq<char>
    decreases k,
{
    if k <= 0 {
        Seq::empty()
    } else {
        printed(matches, json, k - 1) + if json {
            json_line(matches[k - 1])
        } else {
            plain_line(matches[k - 1])
        }
    }
}

/// There is no newline in the text.
pub open spec fn is_one_line(text: Seq<char>) -> bool {
    forall|i: int| 0 <= i < text.len() ==> #[trigger] text[i] != '\n'
}

proof fn lemma_decimal_is_one_line(n: nat)
    ensures
        is_one_line(decimal(n)),
    decreases n,
{
    if n >= 10 {
        lemma_decimal_is_one_line(n / 10);
    }
}

proof fn lemma_json_char_is_one_line(c: char)
    ensures
        is_one_line(json_char(c)),
{
    if (c as u32) < 0x20 {
        assert(hex_digit(c as int / 16) as int >= 48);
        assert(hex_digit(c as int % 16) as int >= 48);
    }
}

proof fn lemma_json_chars_are_one_line(text: Seq<char>)
    ensures
        is_one_line(json_chars(text)),
    decreases text.len(),
{
    if text.len() > 0 {
        lemma_json_chars_are_one_line(text.drop_last());
        lemma_json_char_is_one_line(text.last());
    }
}

proof fn lemma_submatches_are_one_line(submatches: Seq<(usize, usize)>, k: int)
    ensures
        is_one_line(submatch_list(submatches, k)),
    decreases k,
{
    if k > 0 {
        reveal_strlit(",");
        reveal_strlit("{\"start\":");
        reveal_strlit(",\"end\":");
        reveal_strlit("}");
        lemma_submatches_are_one_line(submatches, k - 1);
        lemma_decimal_is_one_line(submatches[k - 1].0 as nat);
        lemma_decimal_is_one_line(submatches[k - 1].1 as nat);
    }
}

/// Whatever its path and text hold, a match in JSON is one line: its only
/// newline is its last character.
pub proof fn json_line_is_one_line(m: MatchView)
    ensures
        json_line(m).len() > 0,
        json_line(m).last() == '\n',
        is_one_line(json_line(m).drop_last()),
{
    reveal_strlit("{\"path\":");
    reveal_strlit(",\"line_number\":");
    reveal_strlit(",\"line\":");
    reveal_strlit(",\"submatches\":[");
    reveal_strlit("]}\n");
    lemma_json_chars_are_one_line(m.path);
    lemma_json_chars_are_one_line(m.text);
    lemma_decimal_is_one_line(m.line as nat);
    lemma_submatches_are_one_line(m.submatches, m.submatches.len() as int);
}

/// Appends a match as text.
fn push_plain_line(out: &mut String, m: &Match)
    ensures
        final(out)@ == old(out)@ + plain_line(m@),
{
    let ghost base = out@;
    out.append(m.path.as_str());
    out.append(":");
    push_decimal(out, m.line as u64);
    out.append(":");
    out.append(m.text.as_str());
    out.append("\n");
    assert(out@ =~= base + plain_line(m@));
}

/// Appends submatches as JSON objects.
fn push_submatches(out: &mut String, submatches: &[(usize, usize)])
    ensures
        final(out)@ == old(out)@ + submatch_list(submatches@, submatches@.len() as int),
{
    let ghost base = out@;
    let mut i: usize = 0;
    assert(out@ =~= base + submatch_list(submatches@, 0));
    while i < submatches.len()
        invariant
            i <= submatches@.len(),
            out@ == base + submatch_list(submatches@, i as int),
        decreases submatches@.len() - i,
    {
        if i > 0 {
            out.append(",");
        }
        let (start, end): (usize, usize) = submatches[i];
        out.append("{\"start\":");
        push_decimal(out, start as u64);
        out.append(",\"end\":");
        push_decimal(out, end as u64);
        out.append("}");
        i += 1;
        assert(out@ =~= base + submatch_list(submatches@, i as int));
    }
}

/// Appends a match as a JSON object.
fn push_json_line(out: &mut String, m: &Match)
    ensures
        final(out)@ == old(out)@ + json_line(m@),
{
    let ghost base = out@;
    out.append("{\"path\":");
    out.append(json_escape(m.path.as_str()).as_str());
    out.append(",\"line_number\":");
    push_decimal(out, m.line as u64);
    out.append(",\"line\":");
    out.append(json_escape(m.text.as_str()).as_str());
    out.append(",\"submatches\":[");
    push_submatches(out, m.submatches.as_slice());
    out.append("]}\n");
    assert(out@ =~= base + json_line(m@));
}

/// The matches as they are printed: `path:line:text` lines, or JSON Lines.
pub fn print_matches(matches: &[Match], json: bool) -> (text: String)
    ensures
        text@ == printed(match_views(matches@), json, matches@.len() as int),
{
    let ghost views = match_views(matches@);
    let mut out = String::new();
    let mut i: usize = 0;
    assert(out@ =~= printed(views, json, 0));
    while i < matches.len()
        invariant
            i <= matches@.len(),
            views == match_views(matches@),
            out@ == printed(views, json, i as int),
        decreases matches@.len() - i,
    {
        assert(views[i as int] == matches@[i as int]@);
        if json {
            push_json_line(&mut out, &matches[i]);
        } else {
            push_plain_line(&mut out, &matches[i]);
        }
        i += 1;
    }
    out
}

proof fn lemma_printed_prefix(a: Seq<MatchView>, b: Seq<MatchView>, json: bool, k: int)
    requires
        k <= a.len(),
        k <= b.len(),
        forall|i: int| 0 <= i < k ==> a[i] == b[i],
    ensures
        printed(a, json, k) == printed(b, json, k),
    decreases k,
{
    if k > 0 {
        lemma_printed_prefix(a, b, json, k - 1);
        assert(a[k - 1] == b[k - 1]);
    }
}

/// What is printed is one line for each match and nothing else: printing one
/// match more adds its line, whatever was printed before. That line is path,
/// line number and text with colons between them, or a JSON object with the
/// path, the line number, the text and the submatches.
pub proof fn every_match_is_printed(matches: Seq<MatchView>, more: MatchView)
    ensures
        forall|json: bool| #[trigger] printed(Seq::empty(), json, 0).len() == 0,
        printed(matches.push(more), false, matches.len() + 1int) == printed(
            matches,
            false,
            matches.len() as int,
        ) + (more.path + seq![':'] + decimal(more.line as nat) + seq![':'] + more.text + seq!['\n']),
        printed(matches.push(more), true, matches.len() + 1int) == printed(
            matches,
            true,
            matches.len() as int,
        ) + ("{\"path\":"@ + json_literal(more.path) + ",\"line_number\":"@ + decimal(
            more.line as nat,
        ) + ",\"line\":"@ + json_literal(more.text) + ",\"submatches\":["@ + submatch_list(
            more.submatches,
            more.submatches.len() as int,
        ) + "]}\n"@),
{
    reveal_strlit(":");
    reveal_strlit("\n");
    let all = matches.push(more);
    let n = matches.len() as int;
    lemma_printed_prefix(all, matches, true, n);
    lemma_printed_prefix(all, matches, false, n);
    assert(all[n] == more);
    assert(":"@ =~= seq![':']);
    assert("\n"@ =~= seq!['\n']);
}

proof fn lemma_submatches_prefix(a: Seq<(usize, usize)>, b: Seq<(usize, usize)>, k: int)
    requires
        k <= a.len(),
        k <= b.len(),
        forall|i: int| 0 <= i < k ==> a[i] == b[i],
    ensures
        submatch_list(a, k) == submatch_list(b, k),
    decreases k,
{
    if k > 0 {
        lemma_submatches_prefix(a, b, k - 1);
        assert(a[k - 1] == b[k - 1]);
    }
}

/// The submatches of a line are printed one after another, each with where it
/// starts and where it ends, with a comma in front of all but the first.
pub proof fn every_submatch_is_printed(submatches: Seq<(usize, usize)>, more: (usize, usize))
    ensures
        submatch_list(Seq::empty(), 0).len() == 0,
        submatch_list(submatches.push(more), submatches.len() + 1int) == submatch_list(
            submatches,
            submatches.len() as int,
        ) + (if submatches.len() > 0 {
            ","@
        } else {
            Seq::empty()
        }) + "{\"start\":"@ + decimal(more.0 as nat) + ",\"end\":"@ + decimal(more.1 as nat) + "}"@,
{
    let all = submatches.push(more);
    let n = submatches.len() as int;
    lemma_submatches_prefix(all, submatches, n);
    assert(all[n] == more);
    assert(submatch_list(all, n + 1) =~= submatch_list(submatches, n) + (if n > 0 {
        ","@
    } else {
        Seq::empty()
    }) + "{\"start\":"@ + decimal(more.0 as nat) + ",\"end\":"@ + decimal(more.1 as nat) + "}"@);
}

proof fn lemma_one_line_has_no_newline(text: Seq<char>)
    requires
        is_one_line(text),
    ensures
        text.filter(|c: char| c == '\n').len() == 0,
    decreases text.len(),
{
    reveal(Seq::filter);
    if text.len() > 0 {
        assert(text[text.len() - 1] != '\n');
        assert forall|i: int| 0 <= i < text.drop_last().len() implies #[trigger] text.drop_last()[i]
            != '\n' by {
            assert(text.drop_last()[i] == text[i]);
        }
        lemma_one_line_has_no_newline(text.drop_last());
    }
}

/// JSON output has as many newlines as there are matches, and ends with one if
/// there are any.
pub proof fn json_output_has_a_line_for_each_match(matches: Seq<MatchView>)
    ensures
        printed(matches, true, matches.len() as int).filter(|c: char| c == '\n').len()
            == matches.len(),
        matches.len() > 0 ==> printed(matches, true, matches.len() as int).last() == '\n',
    decreases matches.len(),
{
    let newline = |c: char| c == '\n';
    reveal(Seq::filter);
    if matches.len() > 0 {
        let init = matches.drop_last();
        let n = init.len() as int;
        json_output_has_a_line_for_each_match(init);
        lemma_printed_prefix(matches, init, true, n);
        let (head, line) = (printed(init, true, n), json_line(matches.last()));
        json_line_is_one_line(matches.last());
        lemma_one_line_has_no_newline(line.drop_last());
        Seq::filter_distributes_over_add(head, line, newline);
        assert(printed(matches, true, n + 1) == head + line);
        assert(line.filter(newline).len() == 1);
        assert((head + line).last() == line.last());
    }
}

/// The text of a JSON string is escaped character by character. A character
/// stands for itself unless it is a quote, a backslash or a control character;
/// line feed, carriage return and tab have letters of their own.
pub proof fn json_escapes_character_by_character(text: Seq<char>, c: char)
    ensures
        json_literal(text).len() >= 2,
        json_literal(text.push(c)).drop_last() == json_literal(text).drop_last() + if c == '"'
            || c == '\\' {
            seq!['\\', c]
        } else if c == '\n' {
            seq!['\\', 'n']
        } else if c == '\r' {
            seq!['\\', 'r']
        } else if c == '\t' {
            seq!['\\', 't']
        } else if (c as u32) >= 0x20 {
            seq![c]
        } else {
            seq![
                '\\',
                'u',
                '0',
                '0',
                if (c as u32) < 0x10 {
                    '0'
                } else {
                    '1'
                },
                if (c as u32) % 0x10 < 10 {
                    (48 + (c as u32) % 0x10) as char
                } else {
                    (87 + (c as u32) % 0x10) as char
                },
            ]
        },
        json_literal(Seq::empty()) == seq!['"', '"'],
{
    assert(text.push(c).drop_last() =~= text);
    assert(json_literal(text).drop_last() =~= seq!['"'] + json_chars(text));
    assert(json_literal(text.push(c)).drop_last() =~= seq!['"'] + json_chars(text) + json_char(c));
    assert(json_literal(Seq::empty()) =~= seq!['"', '"']);
    if (c as u32) < 0x20 {
        assert((c as int) / 16 == if (c as u32) < 0x10 {
            0int
        } else {
            1int
        });
    }
}

/// What a run has to do next.
#[derive(Copy, Clone, PartialEq, Eq, Structural, Debug)]
pub enum RunAction {
    /// List the files to search.
    ScanFiles,
    /// Look which tables there are, and whether they are of a known previous
    /// format.
    InspectIndex,
    /// Build the index from nothing.
    BuildIndex,
    /// Update the index.
    UpdateIndex,
    /// Open the index.
    OpenIndex,
    /// Search the candidates that the index gives.
    SearchIndex,
    /// Search all listed files.
    SearchFiles,
    /// Exit with this code.
    Exit { code: i32 },
}

/// What became of it.
#[derive(Copy, Clone, PartialEq, Eq, Structural, Debug)]
pub enum RunEvent {
    /// The files are listed.
    Scanned,
    /// These tables exist, and the lookup table is of a known previous format
    /// or not.
    Inspected { lookup: bool, postings: bool, files: bool, stale: bool },
    /// The index was built or updated, or could not be.
    Built { ok: bool },
    /// The index was opened, or could not be.
    Opened { ok: bool },
    /// So many matches were found and printed.
    Searched { matches: usize },
    /// The pattern is not a valid regex.
    InvalidPattern,
}

/// The event answers the action.
pub open spec fn is_answer(action: RunAction, event: RunEvent) -> bool {
    match action {
        RunAction::ScanFiles => event is Scanned,
        RunAction::InspectIndex => event is Inspected,
        RunAction::BuildIndex | RunAction::UpdateIndex => event is Built,
        RunAction::OpenIndex => event is Opened,
        RunAction::SearchIndex | RunAction::SearchFiles => event is Searched
            || event is InvalidPattern,
        RunAction::Exit { .. } => false,
    }
}

/// What becomes of the index before it is opened. It is built if that was asked
/// for, if a table is missing, or if it is of a previous format; an update that
/// was asked for is incremental if there is an index of this format.
pub open spec fn prepared_index(config: ConfigView, missing: bool, stale: bool) -> RunAction {
    if config.build || missing || stale {
        RunAction::BuildIndex
    } else if config.update {
        RunAction::UpdateIndex
    } else {
        RunAction::OpenIndex
    }
}

/// What a run does first.
pub open spec fn first_step(config: ConfigView) -> RunAction {
    if config.no_index {
        RunAction::ScanFiles
    } else {
        RunAction::InspectIndex
    }
}

/// What a run does next.
pub open spec fn next_run_step(
    config: ConfigView,
    action: RunAction,
    event: RunEvent,
) -> RunAction {
    match event {
        RunEvent::Scanned => RunAction::SearchFiles,
        RunEvent::Inspected { lookup, postings, files, stale } => prepared_index(
            config,
            !lookup || !postings || !files,
            stale,
        ),
        RunEvent::Built { ok } => if ok {
            RunAction::OpenIndex
        } else {
            RunAction::Exit { code: 2 }
        },
        RunEvent::Opened { ok } => if ok {
            RunAction::SearchIndex
        } else {
            RunAction::Exit { code: 2 }
        },
        RunEvent::Searched { matches } => RunAction::Exit {
            code: if matches == 0 {
                1i32
            } else {
                0i32
            },
        },
        RunEvent::InvalidPattern => RunAction::Exit { code: 2 },
    }
}

/// What a run does first: list the files if it goes without the index, and
/// look at the index otherwise.
pub fn first_action(config: &Config) -> (action: RunAction)
    ensures
        action == first_step(config@),
{
    if config.no_index {
        RunAction::ScanFiles
    } else {
        RunAction::InspectIndex
    }
}

/// What a run does next, given what became of the last action.
pub fn execute_cfg(config: &Config, action: RunAction, event: RunEvent) -> (next: RunAction)
    requires
        is_answer(action, event),
    ensures
        next == next_run_step(config@, action, event),
{
    match event {
        RunEvent::Scanned => RunAction::SearchFiles,
        RunEvent::Inspected { lookup, postings, files, stale } => {
            if config.build || !lookup || !postings || !files || stale {
                RunAction::BuildIndex
            } else if config.update {
                RunAction::UpdateIndex
            } else {
                RunAction::OpenIndex
            }
        },
        RunEvent::Built { ok } => {
            if ok {
                RunAction::OpenIndex
            } else {
                RunAction::Exit { code: 2 }
            }
        },
        RunEvent::Opened { ok } => {
            if ok {
                RunAction::SearchIndex
            } else {
                RunAction::Exit { code: 2 }
            }
        },
        RunEvent::Searched { matches } => {
            if matches == 0 {
                RunAction::Exit { code: 1 }
            } else {
                RunAction::Exit { code: 0 }
            }
        },
        RunEvent::InvalidPattern => RunAction::Exit { code: 2 },
    }
}

/// How far an action is from the end of a run.
pub open spec fn run_rank(action: RunAction) -> nat {
    match action {
        RunAction::InspectIndex => 4,
        RunAction::BuildIndex | RunAction::UpdateIndex => 3,
        RunAction::OpenIndex | RunAction::ScanFiles => 2,
        RunAction::SearchIndex | RunAction::SearchFiles => 1,
        RunAction::Exit { .. } => 0,
    }
}

/// A run comes to an end, and its exit code tells how: 0 if there were matches,
/// 1 if there were none, 2 for any error.
pub proof fn run_ends_with_its_code(config: ConfigView, action: RunAction, event: RunEvent)
    requires
        is_answer(action, event),
    ensures
        run_rank(next_run_step(config, action, event)) < run_rank(action),
        next_run_step(config, action, event) matches RunAction::Exit { code } ==> match event {
            RunEvent::Searched { matches } => code == if matches > 0 {
                0i32
            } else {
                1i32
            },
            RunEvent::Built { ok } => !ok && code == 2,
            RunEvent::Opened { ok } => !ok && code == 2,
            RunEvent::InvalidPattern => code == 2,
            _ => false,
        },
{
}

/// What a run does follows from what it was asked for and what it finds. Without
/// an index it lists the files and searches them all. Otherwise it looks at the
/// index; builds it if that was asked for, if a table is missing or if it is of a
/// previous format; or else updates it if that was asked for; opens it; and
/// searches it. What fails ends the run with 2.
pub proof fn run_does_what_was_asked(config: ConfigView, action: RunAction, event: RunEvent)
    ensures
        first_step(config) == if config.no_index {
            RunAction::ScanFiles
        } else {
            RunAction::InspectIndex
        },
        next_run_step(config, action, RunEvent::Scanned) == RunAction::SearchFiles,
        forall|lookup: bool, postings: bool, files: bool, stale: bool|
            #![trigger next_run_step(
                config,
                action,
                RunEvent::Inspected { lookup, postings, files, stale },
            )]
            {
                let next = next_run_step(
                    config,
                    action,
                    RunEvent::Inspected { lookup, postings, files, stale },
                );
                let whole = lookup && postings && files && !stale;
                &&& next == RunAction::BuildIndex <==> config.build || !whole
                &&& next == RunAction::UpdateIndex <==> config.update && !config.build && whole
                &&& next == RunAction::OpenIndex <==> !config.update && !config.build && whole
            },
        next_run_step(config, action, RunEvent::Built { ok: true }) == RunAction::OpenIndex,
        next_run_step(config, action, RunEvent::Opened { ok: true }) == RunAction::SearchIndex,
        next_run_step(config, action, RunEvent::Built { ok: false }) == (RunAction::Exit {
            code: 2,
        }),
        next_run_step(config, action, RunEvent::Opened { ok: false }) == (RunAction::Exit {
            code: 2,
        }),
        next_run_step(config, action, RunEvent::InvalidPattern) == (RunAction::Exit { code: 2 }),
        forall|matches: usize|
            #![trigger next_run_step(config, action, RunEvent::Searched { matches })]
            next_run_step(config, action, RunEvent::Searched { matches }) == (RunAction::Exit {
                code: if matches > 0 {
                    0i32
                } else {
                    1i32
                },
            }),
{
}

/// A run with the index prints what a run without it prints, and ends with the
/// same code: every match starts and ends with literals of the pattern's plan,
/// as [`decompose`](crate::query::decompose) and
/// [`widen_candidates`](crate::search::widen_candidates) ensure, so the index
/// leads to every file that has a match.
pub proof fn indexed_run_prints_what_brute_force_does(
    files: Seq<SourceView>,
    config: ConfigView,
)
    requires
        forall|i: int|
            0 <= i < files.len() ==> (#[trigger] files[i]).meta is Some && files[i].content is Some
                && stored_path(files[i].path) == files[i].path,
        files.len() <= u32::MAX,
        all_postings(file_records(files, None)).len() <= MAX_POSTINGS,
        entries_fit(record_entries(file_records(files, None))),
        plan_is_required(
            required_plan(config.pattern, config.ignore_case),
            config.pattern,
            config.ignore_case,
            true,
        ),
    ensures
        ({
            let t = record_tables(file_records(files, None));
            let spans = spans_of_pattern(config.pattern, config.ignore_case);
            let brute = sorted(
                brute_force_matches(files, spans, config.json, files.len() as int),
            );
            match open_tables(t.lookup, t.postings, t.files, t.meta) {
                Ok(index) => {
                    let pruned = sorted(
                        ids_matches(
                            index,
                            spans,
                            search_ids(index, config.pattern, config.ignore_case),
                            source_contents(files),
                            config.json,
                        ),
                    );
                    &&& printed(pruned, config.json, pruned.len() as int) == printed(
                        brute,
                        config.json,
                        brute.len() as int,
                    )
                    &&& next_run_step(
                        config,
                        RunAction::SearchIndex,
                        RunEvent::Searched { matches: pruned.len() as usize },
                    ) == next_run_step(
                        config,
                        RunAction::SearchFiles,
                        RunEvent::Searched { matches: brute.len() as usize },
                    )
                },
                Err(_) => false,
            }
        }),
{
    let records = file_records(files, None);
    let t = record_tables(records);
    let spans = spans_of_pattern(config.pattern, config.ignore_case);
    built_index_describes_its_files(files);
    searching_the_index_is_brute_force(files, spans, config.json);
    candidates_lose_no_match(
        open_tables(t.lookup, t.postings, t.files, t.meta)->Ok_0,
        records,
        source_contents(files),
        config.pattern,
        config.ignore_case,
        config.json,
    );
}

/// A diagnostic line.
pub open spec fn note(text: Seq<char>) -> Seq<char> {
    "rgx: "@ + text + "\n"@
}

/// A diagnostic line: `text` behind the name of the program.
pub fn note_line(text: &str) -> (line: String)
    ensures
        line@ == note(text@),
{
    let mut line = "rgx: ".to_owned();
    line.append(text);
    line.append("\n");
    line
}

/// A diagnostic line that puts `detail` behind `text`.
fn detail_line(text: &str, detail: &str) -> (line: String)
    ensures
        line@ == note(text@ + detail@),
{
    let mut line = "rgx: ".to_owned();
    line.append(text);
    line.append(detail);
    line.append("\n");
    assert(line@ =~= note(text@ + detail@));
    line
}

/// What is said when the index cannot be built.
pub fn build_failed_line(error: &str) -> (line: String)
    ensures
        line@ == note("index build failed: "@ + error@),
{
    detail_line("index build failed: ", error)
}

/// What is said when the index cannot be opened.
pub fn cannot_load_line(index_dir: &str, error: &str) -> (line: String)
    ensures
        line@ == note("cannot load index at "@ + index_dir@ + ": "@ + error@),
{
    let mut text = "cannot load index at ".to_owned();
    text.append(index_dir);
    text.append(": ");
    detail_line(text.as_str(), error)
}

/// What is said when the pattern is not a valid regex.
pub fn invalid_pattern_line(error: &str) -> (line: String)
    ensures
        line@ == note("invalid pattern: "@ + error@),
{
    detail_line("invalid pattern: ", error)
}

/// `--time`: how long the files took to list.
pub fn scan_time_line(ms: u64, files: usize) -> (line: String)
    ensures
        line@ == note(
            "scan (no-index): "@ + decimal(ms as nat) + " ms ("@ + decimal(files as nat)
                + " files)"@,
        ),
{
    let mut text = "scan (no-index): ".to_owned();
    push_decimal(&mut text, ms);
    text.append(" ms (");
    push_decimal(&mut text, files as u64);
    text.append(" files)");
    note_line(text.as_str())
}

/// `--time`: how long the index took to build or update.
pub fn index_time_line(incremental: bool, elapsed: &str, stats: &BuildStats) -> (line: String)
    ensures
        line@ == note(
            "index "@ + (if incremental {
                "update"@
            } else {
                "build"@
            }) + ": "@ + elapsed@ + " ("@ + decimal(stats.files as nat) + " files, "@ + decimal(
                stats.reused_files as nat,
            ) + " reused, "@ + decimal(stats.ngrams as nat) + " n-grams)"@,
        ),
{
    let mut text = "index ".to_owned();
    if incremental {
        text.append("update");
    } else {
        text.append("build");
    }
    text.append(": ");
    text.append(elapsed);
    text.append(" (");
    push_decimal(&mut text, stats.files as u64);
    text.append(" files, ");
    push_decimal(&mut text, stats.reused_files as u64);
    text.append(" reused, ");
    push_decimal(&mut text, stats.ngrams as u64);
    text.append(" n-grams)");
    note_line(text.as_str())
}

/// `--time`: how long planning and pruning took, and what they left.
pub fn plan_time_line(plan_ms: u64, candidates_ms: u64, candidates: usize) -> (line: String)
    ensures
        line@ == note(
            "plan: "@ + decimal(plan_ms as nat) + " ms, candidates: "@ + decimal(
                candidates_ms as nat,
            ) + " ms, "@ + decimal(candidates as nat) + " candidates"@,
        ),
{
    let mut text = "plan: ".to_owned();
    push_decimal(&mut text, plan_ms);
    text.append(" ms, candidates: ");
    push_decimal(&mut text, candidates_ms);
    text.append(" ms, ");
    push_decimal(&mut text, candidates as u64);
    text.append(" candidates");
    note_line(text.as_str())
}

/// `--stats`: what the build did.
pub fn build_stats_line(stats: &BuildStats, elapsed: &str) -> (line: String)
    ensures
        line@ == note(
            "build: "@ + decimal(stats.files as nat) + " files ("@ + decimal(
                stats.reused_files as nat,
            ) + " reused), "@ + decimal((stats.bytes_read / 0x10_0000) as nat) + " MiB read, "@
                + decimal(stats.ngrams as nat) + " n-grams, "@ + decimal(stats.postings as nat)
                + " postings, index "@ + decimal(stats.index_bytes as nat) + " bytes ("@ + elapsed@
                + ")"@,
        ),
{
    let mut text = "build: ".to_owned();
    push_decimal(&mut text, stats.files as u64);
    text.append(" files (");
    push_decimal(&mut text, stats.reused_files as u64);
    text.append(" reused), ");
    push_decimal(&mut text, stats.bytes_read / 0x10_0000);
    text.append(" MiB read, ");
    push_decimal(&mut text, stats.ngrams as u64);
    text.append(" n-grams, ");
    push_decimal(&mut text, stats.postings);
    text.append(" postings, index ");
    push_decimal(&mut text, stats.index_bytes);
    text.append(" bytes (");
    text.append(elapsed);
    text.append(")");
    note_line(text.as_str())
}

/// `--stats`: what the index holds.
pub fn index_stats_line(files: usize, ngrams: u64, postings: u64) -> (line: String)
    ensures
        line@ == note(
            "index: "@ + decimal(files as nat) + " files, "@ + decimal(ngrams as nat)
                + " n-grams, "@ + decimal(postings as nat) + " postings"@,
        ),
{
    let mut text = "index: ".to_owned();
    push_decimal(&mut text, files as u64);
    text.append(" files, ");
    push_decimal(&mut text, ngrams);
    text.append(" n-grams, ");
    push_decimal(&mut text, postings);
    text.append(" postings");
    note_line(text.as_str())
}

/// `--stats`: what the query came to.
pub fn query_stats_line(ngrams: usize, candidates: usize, matches: usize) -> (line: String)
    ensures
        line@ == note(
            "query: "@ + decimal(ngrams as nat) + " n-grams, "@ + decimal(candidates as nat)
                + " candidates, "@ + decimal(matches as nat) + " matches"@,
        ),
{
    let mut text = "query: ".to_owned();
    push_decimal(&mut text, ngrams as u64);
    text.append(" n-grams, ");
    push_decimal(&mut text, candidates as u64);
    text.append(" candidates, ");
    push_decimal(&mut text, matches as u64);
    text.append(" matches");
    note_line(text.as_str())
}

/// `--time`: how long one part of the run took, such as `build` or `total`.
pub fn part_time_line(part: &str, elapsed: &str) -> (line: String)
    ensures
        line@ == note(part@ + ": "@ + elapsed@),
{
    let mut text = part.to_owned();
    text.append(": ");
    detail_line(text.as_str(), elapsed)
}

/// A diagnostic line names the program, and ends where its text ends.
pub proof fn notes_name_the_program(text: Seq<char>)
    ensures
        note(text) == "rgx: "@ + text + "\n"@,
{
}

/// A configuration, and what parsing arguments gave, stand for all they hold.
pub proof fn configurations_show_all_they_hold(
    config: Config,
    result: Result<Option<Config>, String>,
)
    ensures
        config@.pattern == config.pattern@ && config@.root == config.root@,
        config@.ignore_case == config.ignore_case && config@.build == config.build,
        config@.update == config.update && config@.no_index == config.no_index,
        config@.stats == config.stats && config@.time == config.time,
        config@.json == config.json && config@.follow_symlinks == config.follow_symlinks,
        match (result, parse_view(result)) {
            (Ok(Some(given)), Ok(Some(view))) => view == given@,
            (Ok(None), Ok(None)) => true,
            (Err(given), Err(view)) => view == given@,
            _ => false,
        },
        INDEX_DIR_NAME@ == ".rgx"@,
{
}

} // verus!
