//! Command-line options.

use vstd::prelude::*;
use crate::text::str_equals;

verus! {

/// How the program was asked to run.
pub struct Options {
    /// Edit the listing in `$EDITOR`.
    pub interactive: bool,
    /// Standard input is not a terminal, so commands may be read from it.
    pub has_stdin: bool,
    pub recursive: bool,
    pub verbose: bool,
    pub paths: Vec<String>,
}

pub struct OptionsModel {
    pub interactive: bool,
    pub has_stdin: bool,
    pub recursive: bool,
    pub verbose: bool,
    pub paths: Seq<Seq<char>>,
}

impl View for Options {
    type V = OptionsModel;

    open spec fn view(&self) -> OptionsModel {
        OptionsModel {
            interactive: self.interactive,
            has_stdin: self.has_stdin,
            recursive: self.recursive,
            verbose: self.verbose,
            paths: self.paths@.map_values(|p: String| p@),
        }
    }
}

/// What a run does once the listing is made.
pub enum Mode {
    /// Write the listing to a file, let `$EDITOR` change it, and apply it.
    Edit,
    /// Apply the commands read from standard input.
    ApplyStdin,
    /// Print the listing.
    Print,
}

impl Options {
    /// Listings are headed by their paths when verbose or interactive.
    pub fn show_paths(&self) -> (r: bool)
        ensures
            r == (self.verbose || self.interactive),
    {
        self.verbose || self.interactive
    }

    /// Interactive runs edit; otherwise commands come from standard input
    /// when it is not a terminal, and the listing is printed when it is.
    pub fn mode(&self) -> (m: Mode)
        ensures
            self.interactive ==> m is Edit,
            !self.interactive && self.has_stdin ==> m is ApplyStdin,
            !self.interactive && !self.has_stdin ==> m is Print,
    {
        if self.interactive {
            Mode::Edit
        } else if self.has_stdin {
            Mode::ApplyStdin
        } else {
            Mode::Print
        }
    }
}

/// What the command line asks for.
pub enum Invocation {
    /// `-h` or `--help`: print the usage and stop.
    Help,
    /// An argument starting with `-` that is no option: report it, print the usage and fail.
    InvalidOption(String),
    Run(Options),
}

pub enum InvocationModel {
    Help,
    InvalidOption(Seq<char>),
    Run(OptionsModel),
}

impl View for Invocation {
    type V = InvocationModel;

    open spec fn view(&self) -> InvocationModel {
        match self {
            Invocation::Help => InvocationModel::Help,
            Invocation::InvalidOption(a) => InvocationModel::InvalidOption(a@),
            Invocation::Run(o) => InvocationModel::Run(o@),
        }
    }
}

/// The options before any argument is read: interactive when both standard
/// input and standard output are terminals.
pub open spec fn initial_options(stdin_is_tty: bool, stdout_is_tty: bool) -> OptionsModel {
    OptionsModel {
        interactive: stdin_is_tty && stdout_is_tty,
        has_stdin: !stdin_is_tty,
        recursive: false,
        verbose: false,
        paths: Seq::empty(),
    }
}

/// Reading the arguments in order; the first `-h`/`--help` or unknown option stops.
pub open spec fn scan_args(o: OptionsModel, args: Seq<Seq<char>>) -> InvocationModel
    decreases args.len(),
{
    if args.len() == 0 {
        InvocationModel::Run(o)
    } else {
        let a = args[0];
        let rest = args.drop_first();
        if a == seq!['-', 'h'] || a == seq!['-', '-', 'h', 'e', 'l', 'p'] {
            InvocationModel::Help
        } else if a == seq!['-', 'i'] || a == seq![
            '-',
            '-',
            'i',
            'n',
            't',
            'e',
            'r',
            'a',
            'c',
            't',
            'i',
            'v',
            'e',
        ] {
            scan_args(OptionsModel { interactive: true, ..o }, rest)
        } else if a == seq!['-', 'p'] || a == seq![
            '-',
            '-',
            'n',
            'o',
            'n',
            '-',
            'i',
            'n',
            't',
            'e',
            'r',
            'a',
            'c',
            't',
            'i',
            'v',
            'e',
        ] {
            scan_args(OptionsModel { interactive: false, ..o }, rest)
        } else if a == seq!['-', 'r'] || a == seq!['-', '-', 'r', 'e', 'c', 'u', 'r', 's', 'i', 'v', 'e'] {
            scan_args(OptionsModel { recursive: true, ..o }, rest)
        } else if a == seq!['-', 'v'] || a == seq!['-', '-', 'v', 'e', 'r', 'b', 'o', 's', 'e'] {
            scan_args(OptionsModel { verbose: true, ..o }, rest)
        } else if a.len() > 0 && a[0] == '-' {
            InvocationModel::InvalidOption(a)
        } else {
            scan_args(OptionsModel { paths: o.paths.push(a), ..o }, rest)
        }
    }
}

/// With no path given, the current directory is listed, recursively when
/// commands come from standard input.
pub open spec fn with_default_path(o: OptionsModel) -> OptionsModel {
    if o.paths.len() == 0 {
        OptionsModel { paths: seq![seq!['.']], recursive: o.recursive || o.has_stdin, ..o }
    } else {
        o
    }
}

pub open spec fn invocation(args: Seq<Seq<char>>, stdin_is_tty: bool, stdout_is_tty: bool) -> InvocationModel {
    match scan_args(initial_options(stdin_is_tty, stdout_is_tty), args) {
        InvocationModel::Run(o) => InvocationModel::Run(with_default_path(o)),
        other => other,
    }
}

fn is_one_of(a: &str, short: &str, long: &str) -> (r: bool)
    ensures
        r == (a@ == short@ || a@ == long@),
{
    str_equals(a, short) || str_equals(a, long)
}

/// Reads the command-line arguments (without the program name), given
/// whether standard input and standard output are terminals.
pub fn parse_args(args: &Vec<String>, stdin_is_tty: bool, stdout_is_tty: bool) -> (r: Invocation)
    ensures
        r@ == invocation(args@.map_values(|s: String| s@), stdin_is_tty, stdout_is_tty),
{
    let ghost all = args@.map_values(|s: String| s@);
    let mut opts = Options {
        interactive: stdin_is_tty && stdout_is_tty,
        has_stdin: !stdin_is_tty,
        recursive: false,
        verbose: false,
        paths: Vec::new(),
    };
    proof {
        assert(opts@.paths =~= Seq::<Seq<char>>::empty());
        assert(opts@ == initial_options(stdin_is_tty, stdout_is_tty));
        assert(all.subrange(0, all.len() as int) =~= all);
    }
    let mut i: usize = 0;
    while i < args.len()
        invariant
            i <= args@.len(),
            all == args@.map_values(|s: String| s@),
            scan_args(initial_options(stdin_is_tty, stdout_is_tty), all) == scan_args(
                opts@,
                all.subrange(i as int, all.len() as int),
            ),
        decreases args.len() - i,
    {
        let a = args[i].as_str();
        let ghost rest = all.subrange(i as int, all.len() as int);
        proof {
            assert(rest[0] == a@);
            assert(rest.drop_first() =~= all.subrange(i + 1, all.len() as int));
            reveal_strlit("-h");
            assert("-h"@ =~= seq!['-', 'h']);
            reveal_strlit("--help");
            assert("--help"@ =~= seq!['-', '-', 'h', 'e', 'l', 'p']);
            reveal_strlit("-i");
            assert("-i"@ =~= seq!['-', 'i']);
            reveal_strlit("--interactive");
            assert("--interactive"@ =~= seq!['-', '-', 'i', 'n', 't', 'e', 'r', 'a', 'c', 't', 'i', 'v', 'e']);
            reveal_strlit("-p");
            assert("-p"@ =~= seq!['-', 'p']);
            reveal_strlit("--non-interactive");
            assert("--non-interactive"@ =~= seq!['-', '-', 'n', 'o', 'n', '-', 'i', 'n', 't', 'e', 'r', 'a', 'c', 't', 'i', 'v', 'e']);
            reveal_strlit("-r");
            assert("-r"@ =~= seq!['-', 'r']);
            reveal_strlit("--recursive");
            assert("--recursive"@ =~= seq!['-', '-', 'r', 'e', 'c', 'u', 'r', 's', 'i', 'v', 'e']);
            reveal_strlit("-v");
            assert("-v"@ =~= seq!['-', 'v']);
            reveal_strlit("--verbose");
            assert("--verbose"@ =~= seq!['-', '-', 'v', 'e', 'r', 'b', 'o', 's', 'e']);
        }
        if is_one_of(a, "-h", "--help") {
            return Invocation::Help;
        } else if is_one_of(a, "-i", "--interactive") {
            opts.interactive = true;
        } else if is_one_of(a, "-p", "--non-interactive") {
            opts.interactive = false;
        } else if is_one_of(a, "-r", "--recursive") {
            opts.recursive = true;
        } else if is_one_of(a, "-v", "--verbose") {
            opts.verbose = true;
        } else {
            let chars = crate::text::chars_of(a);
            if chars.len() > 0 && chars[0] == '-' {
                return Invocation::InvalidOption(args[i].clone());
            }
            let ghost before = opts@;
            opts.paths.push(args[i].clone());
            proof {
                assert(opts@.paths =~= before.paths.push(a@));
            }
        }
        i = i + 1;
    }
    proof {
        assert(all.subrange(i as int, all.len() as int) =~= Seq::<Seq<char>>::empty());
    }
    if opts.paths.len() == 0 {
        proof {
            reveal_strlit(".");
        }
        opts.paths.push(String::from_str("."));
        proof {
            assert("."@ =~= seq!['.']);
            assert(opts@.paths =~= seq![seq!['.']]);
        }
        if opts.has_stdin {
            opts.recursive = true;
        }
    }
    Invocation::Run(opts)
}


// ---------------------------------------------------------------------------
// What each option does
// ---------------------------------------------------------------------------

/// `long` is the long form of the option `short`.
pub open spec fn long_form(short: Seq<char>, long: Seq<char>) -> bool {
    ||| short == seq!['-', 'h'] && long == seq!['-', '-', 'h', 'e', 'l', 'p']
    ||| short == seq!['-', 'i'] && long == seq!['-', '-', 'i', 'n', 't', 'e', 'r', 'a', 'c', 't', 'i', 'v', 'e']
    ||| short == seq!['-', 'p'] && long == seq![
        '-',
        '-',
        'n',
        'o',
        'n',
        '-',
        'i',
        'n',
        't',
        'e',
        'r',
        'a',
        'c',
        't',
        'i',
        'v',
        'e',
    ]
    ||| short == seq!['-', 'r'] && long == seq!['-', '-', 'r', 'e', 'c', 'u', 'r', 's', 'i', 'v', 'e']
    ||| short == seq!['-', 'v'] && long == seq!['-', '-', 'v', 'e', 'r', 'b', 'o', 's', 'e']
}

proof fn lemma_scan_long_short(
    o: OptionsModel,
    args: Seq<Seq<char>>,
    k: int,
    short: Seq<char>,
    long: Seq<char>,
)
    requires
        long_form(short, long),
        0 <= k < args.len(),
    ensures
        scan_args(o, args.update(k, long)) == scan_args(o, args.update(k, short)),
    decreases args.len(),
{
    let al = args.update(k, long);
    let as_ = args.update(k, short);
    if k == 0 {
        assert(al.drop_first() =~= args.drop_first());
        assert(as_.drop_first() =~= args.drop_first());
        assert(al[0] == long);
        assert(as_[0] == short);
        assert(seq!['-', 'h'][1] == 'h');
        assert(seq!['-', 'i'][1] == 'i');
        assert(seq!['-', 'p'][1] == 'p');
        assert(seq!['-', 'r'][1] == 'r');
        assert(seq!['-', 'v'][1] == 'v');
        assert(seq!['-', '-', 'i', 'n', 't', 'e', 'r', 'a', 'c', 't', 'i', 'v', 'e'][2] == 'i');
        assert(seq!['-', '-', 'n', 'o', 'n', '-', 'i', 'n', 't', 'e', 'r', 'a', 'c', 't', 'i', 'v', 'e'][2]
            == 'n');
        assert(seq!['-', '-', 'r', 'e', 'c', 'u', 'r', 's', 'i', 'v', 'e'][2] == 'r');
        assert(seq!['-', '-', 'v', 'e', 'r', 'b', 'o', 's', 'e'][2] == 'v');
        assert(seq!['-', '-', 'h', 'e', 'l', 'p'][2] == 'h');
    } else {
        assert(al[0] == args[0]);
        assert(as_[0] == args[0]);
        assert(al.drop_first() =~= args.drop_first().update(k - 1, long));
        assert(as_.drop_first() =~= args.drop_first().update(k - 1, short));
        let a = args[0];
        let rest = args.drop_first();
        lemma_scan_long_short(OptionsModel { interactive: true, ..o }, rest, k - 1, short, long);
        lemma_scan_long_short(OptionsModel { interactive: false, ..o }, rest, k - 1, short, long);
        lemma_scan_long_short(OptionsModel { recursive: true, ..o }, rest, k - 1, short, long);
        lemma_scan_long_short(OptionsModel { verbose: true, ..o }, rest, k - 1, short, long);
        lemma_scan_long_short(OptionsModel { paths: o.paths.push(a), ..o }, rest, k - 1, short, long);
    }
}

/// Each long option reads as its short form: writing `--recursive` for `-r`
/// (or `--help`, `--interactive`, `--non-interactive`, `--verbose` for `-h`,
/// `-i`, `-p`, `-v`) anywhere on the command line changes nothing.
pub proof fn lemma_long_option_is_short_option(
    args: Seq<Seq<char>>,
    k: int,
    short: Seq<char>,
    long: Seq<char>,
    stdin_is_tty: bool,
    stdout_is_tty: bool,
)
    requires
        long_form(short, long),
        0 <= k < args.len(),
    ensures
        invocation(args.update(k, long), stdin_is_tty, stdout_is_tty) == invocation(
            args.update(k, short),
            stdin_is_tty,
            stdout_is_tty,
        ),
{
    lemma_scan_long_short(initial_options(stdin_is_tty, stdout_is_tty), args, k, short, long);
}

proof fn lemma_scan_push(o: OptionsModel, args: Seq<Seq<char>>, a: Seq<char>)
    ensures
        scan_args(o, args.push(a)) == match scan_args(o, args) {
            InvocationModel::Run(o2) => scan_args(o2, seq![a]),
            other => other,
        },
    decreases args.len(),
{
    if args.len() == 0 {
        assert(args.push(a) =~= seq![a]);
    } else {
        let b = args[0];
        let rest = args.drop_first();
        assert(args.push(a)[0] == b);
        assert(args.push(a).drop_first() =~= rest.push(a));
        lemma_scan_push(OptionsModel { interactive: true, ..o }, rest, a);
        lemma_scan_push(OptionsModel { interactive: false, ..o }, rest, a);
        lemma_scan_push(OptionsModel { recursive: true, ..o }, rest, a);
        lemma_scan_push(OptionsModel { verbose: true, ..o }, rest, a);
        lemma_scan_push(OptionsModel { paths: o.paths.push(b), ..o }, rest, a);
    }
}

proof fn lemma_scan_one(o: OptionsModel, a: Seq<char>)
    ensures
        scan_args(o, seq![a]) == if a == seq!['-', 'h'] || a == seq!['-', '-', 'h', 'e', 'l', 'p'] {
            InvocationModel::Help
        } else if a == seq!['-', 'i'] || a == seq!['-', '-', 'i', 'n', 't', 'e', 'r', 'a', 'c', 't', 'i', 'v', 'e'] {
            InvocationModel::Run(OptionsModel { interactive: true, ..o })
        } else if a == seq!['-', 'p'] || a == seq![
            '-',
            '-',
            'n',
            'o',
            'n',
            '-',
            'i',
            'n',
            't',
            'e',
            'r',
            'a',
            'c',
            't',
            'i',
            'v',
            'e',
        ] {
            InvocationModel::Run(OptionsModel { interactive: false, ..o })
        } else if a == seq!['-', 'r'] || a == seq!['-', '-', 'r', 'e', 'c', 'u', 'r', 's', 'i', 'v', 'e'] {
            InvocationModel::Run(OptionsModel { recursive: true, ..o })
        } else if a == seq!['-', 'v'] || a == seq!['-', '-', 'v', 'e', 'r', 'b', 'o', 's', 'e'] {
            InvocationModel::Run(OptionsModel { verbose: true, ..o })
        } else if a.len() > 0 && a[0] == '-' {
            InvocationModel::InvalidOption(a)
        } else {
            InvocationModel::Run(OptionsModel { paths: o.paths.push(a), ..o })
        },
{
    reveal_with_fuel(scan_args, 2);
    assert(seq![a].drop_first() =~= Seq::<Seq<char>>::empty());
    assert(seq![a][0] == a);
}

/// What an option does, given last: `-h` asks for the usage; `-i` and `-p`
/// turn editing on and off; `-r` lists recursively; `-v` prints every change;
/// any other argument starting with `-` is refused. An argument after `-h` or
/// a refused option changes nothing.
pub proof fn lemma_option_effects(args: Seq<Seq<char>>, a: Seq<char>, stdin_is_tty: bool, stdout_is_tty: bool)
    ensures
        match invocation(args, stdin_is_tty, stdout_is_tty) {
            InvocationModel::Run(o) => {
                &&& a == seq!['-', 'h'] ==> invocation(args.push(a), stdin_is_tty, stdout_is_tty)
                    == InvocationModel::Help
                &&& a == seq!['-', 'i'] ==> invocation(args.push(a), stdin_is_tty, stdout_is_tty)
                    == InvocationModel::Run(OptionsModel { interactive: true, ..o })
                &&& a == seq!['-', 'p'] ==> invocation(args.push(a), stdin_is_tty, stdout_is_tty)
                    == InvocationModel::Run(OptionsModel { interactive: false, ..o })
                &&& a == seq!['-', 'r'] ==> invocation(args.push(a), stdin_is_tty, stdout_is_tty)
                    == InvocationModel::Run(OptionsModel { recursive: true, ..o })
                &&& a == seq!['-', 'v'] ==> invocation(args.push(a), stdin_is_tty, stdout_is_tty)
                    == InvocationModel::Run(OptionsModel { verbose: true, ..o })
                &&& (a.len() > 0 && a[0] == '-' && !(exists|short: Seq<char>|
                    long_form(short, a) || long_form(a, short)))
                    ==> invocation(args.push(a), stdin_is_tty, stdout_is_tty) == InvocationModel::InvalidOption(a)
            },
            other => invocation(args.push(a), stdin_is_tty, stdout_is_tty) == other,
        },
{
    let o0 = initial_options(stdin_is_tty, stdout_is_tty);
    lemma_scan_push(o0, args, a);
    match scan_args(o0, args) {
        InvocationModel::Run(o2) => {
            lemma_scan_one(o2, a);
            assert(seq!['-', 'h'][1] == 'h');
            assert(seq!['-', 'i'][1] == 'i');
            assert(seq!['-', 'p'][1] == 'p');
            assert(seq!['-', 'r'][1] == 'r');
            assert(seq!['-', 'v'][1] == 'v');
            if a.len() > 0 && a[0] == '-' && !(exists|short: Seq<char>| long_form(short, a) || long_form(a, short)) {
                assert(!long_form(seq!['-', 'h'], a) && !long_form(a, seq!['-', '-', 'h', 'e', 'l', 'p']));
                assert(!long_form(seq!['-', 'i'], a) && !long_form(
                    a,
                    seq!['-', '-', 'i', 'n', 't', 'e', 'r', 'a', 'c', 't', 'i', 'v', 'e'],
                ));
                assert(!long_form(seq!['-', 'p'], a) && !long_form(
                    a,
                    seq!['-', '-', 'n', 'o', 'n', '-', 'i', 'n', 't', 'e', 'r', 'a', 'c', 't', 'i', 'v', 'e'],
                ));
                assert(!long_form(seq!['-', 'r'], a) && !long_form(
                    a,
                    seq!['-', '-', 'r', 'e', 'c', 'u', 'r', 's', 'i', 'v', 'e'],
                ));
                assert(!long_form(seq!['-', 'v'], a) && !long_form(a, seq!['-', '-', 'v', 'e', 'r', 'b', 'o', 's', 'e']));
            }
        },
        _ => {},
    }
}

/// With no arguments the current directory is listed, recursively when
/// commands come from standard input, and edited when both standard input
/// and standard output are terminals.
pub proof fn lemma_no_arguments(stdin_is_tty: bool, stdout_is_tty: bool)
    ensures
        invocation(Seq::empty(), stdin_is_tty, stdout_is_tty) == InvocationModel::Run(
            OptionsModel {
                interactive: stdin_is_tty && stdout_is_tty,
                has_stdin: !stdin_is_tty,
                recursive: !stdin_is_tty,
                verbose: false,
                paths: seq![seq!['.']],
            },
        ),
{
}

/// An argument naming a path: one that does not start with `-`.
pub open spec fn is_path_arg(a: Seq<char>) -> bool {
    !(a.len() > 0 && a[0] == '-')
}

/// The arguments naming paths, in order.
pub open spec fn path_args(args: Seq<Seq<char>>) -> Seq<Seq<char>>
    decreases args.len(),
{
    if args.len() == 0 {
        Seq::empty()
    } else if is_path_arg(args.last()) {
        path_args(args.drop_last()).push(args.last())
    } else {
        path_args(args.drop_last())
    }
}

/// `-r` or `--recursive` is among the arguments.
pub open spec fn asks_recursive(args: Seq<Seq<char>>) -> bool {
    args.contains(seq!['-', 'r']) || args.contains(seq!['-', '-', 'r', 'e', 'c', 'u', 'r', 's', 'i', 'v', 'e'])
}

/// `-v` or `--verbose` is among the arguments.
pub open spec fn asks_verbose(args: Seq<Seq<char>>) -> bool {
    args.contains(seq!['-', 'v']) || args.contains(seq!['-', '-', 'v', 'e', 'r', 'b', 'o', 's', 'e'])
}

/// `-i`, `--interactive`, `-p` or `--non-interactive` is among the arguments.
pub open spec fn sets_interactive(args: Seq<Seq<char>>) -> bool {
    args.contains(seq!['-', 'i']) || args.contains(seq!['-', '-', 'i', 'n', 't', 'e', 'r', 'a', 'c', 't', 'i', 'v', 'e']) || args.contains(seq!['-', 'p']) || args.contains(
        seq!['-', '-', 'n', 'o', 'n', '-', 'i', 'n', 't', 'e', 'r', 'a', 'c', 't', 'i', 'v', 'e'],
    )
}

proof fn lemma_scan_fields(args: Seq<Seq<char>>, stdin_is_tty: bool, stdout_is_tty: bool)
    ensures
        scan_args(initial_options(stdin_is_tty, stdout_is_tty), args) matches InvocationModel::Run(o2) ==> {
            &&& o2.paths == path_args(args)
            &&& o2.recursive == asks_recursive(args)
            &&& o2.verbose == asks_verbose(args)
            &&& o2.has_stdin == !stdin_is_tty
            &&& !sets_interactive(args) ==> o2.interactive == (stdin_is_tty && stdout_is_tty)
        },
    decreases args.len(),
{
    let o0 = initial_options(stdin_is_tty, stdout_is_tty);
    if args.len() == 0 {
        assert(!asks_recursive(args) && !asks_verbose(args) && !sets_interactive(args));
    } else {
        let init = args.drop_last();
        let a = args.last();
        assert(init.push(a) =~= args);
        lemma_scan_fields(init, stdin_is_tty, stdout_is_tty);
        lemma_scan_push(o0, init, a);
        match scan_args(o0, init) {
            InvocationModel::Run(o2) => {
                lemma_scan_one(o2, a);
                assert(seq!['-', 'h'][1] == 'h');
                assert(seq!['-', 'i'][1] == 'i');
                assert(seq!['-', 'p'][1] == 'p');
                assert(seq!['-', 'r'][1] == 'r');
                assert(seq!['-', 'v'][1] == 'v');
                assert(seq!['-', '-', 'i', 'n', 't', 'e', 'r', 'a', 'c', 't', 'i', 'v', 'e'][2] == 'i');
                assert(seq!['-', '-', 'n', 'o', 'n', '-', 'i', 'n', 't', 'e', 'r', 'a', 'c', 't', 'i', 'v', 'e'][2] == 'n');
                assert(seq!['-', '-', 'r', 'e', 'c', 'u', 'r', 's', 'i', 'v', 'e'][2] == 'r');
                assert(seq!['-', '-', 'v', 'e', 'r', 'b', 'o', 's', 'e'][2] == 'v');
                vstd::seq_lib::lemma_seq_contains_after_push(init, a, seq!['-', 'r']);
                vstd::seq_lib::lemma_seq_contains_after_push(init, a, seq!['-', '-', 'r', 'e', 'c', 'u', 'r', 's', 'i', 'v', 'e']);
                vstd::seq_lib::lemma_seq_contains_after_push(init, a, seq!['-', 'v']);
                vstd::seq_lib::lemma_seq_contains_after_push(init, a, seq!['-', '-', 'v', 'e', 'r', 'b', 'o', 's', 'e']);
                vstd::seq_lib::lemma_seq_contains_after_push(init, a, seq!['-', 'i']);
                vstd::seq_lib::lemma_seq_contains_after_push(init, a, seq!['-', '-', 'i', 'n', 't', 'e', 'r', 'a', 'c', 't', 'i', 'v', 'e']);
                vstd::seq_lib::lemma_seq_contains_after_push(init, a, seq!['-', 'p']);
                vstd::seq_lib::lemma_seq_contains_after_push(init, a, seq!['-', '-', 'n', 'o', 'n', '-', 'i', 'n', 't', 'e', 'r', 'a', 'c', 't', 'i', 'v', 'e']);
                assert(path_args(args) == if is_path_arg(a) {
                    path_args(init).push(a)
                } else {
                    path_args(init)
                });
            },
            _ => {},
        }
    }
}

/// A run lists the paths given, in order, or the current directory when none
/// is given; it lists recursively when `-r` or `--recursive` is given, or when
/// no path is given and commands come from standard input; it prints every
/// change when `-v` or `--verbose` is given; and without `-i`, `-p` or their
/// long forms it edits exactly when both standard input and standard output
/// are terminals.
pub proof fn lemma_run_options(args: Seq<Seq<char>>, stdin_is_tty: bool, stdout_is_tty: bool)
    ensures
        invocation(args, stdin_is_tty, stdout_is_tty) matches InvocationModel::Run(o) ==> {
            &&& o.paths == if path_args(args).len() == 0 {
                seq![seq!['.']]
            } else {
                path_args(args)
            }
            &&& o.recursive == (asks_recursive(args) || (path_args(args).len() == 0 && !stdin_is_tty))
            &&& o.verbose == asks_verbose(args)
            &&& o.has_stdin == !stdin_is_tty
            &&& !sets_interactive(args) ==> o.interactive == (stdin_is_tty && stdout_is_tty)
        },
{
    lemma_scan_fields(args, stdin_is_tty, stdout_is_tty);
}

} // verus!
