//! The command line of the buffer-insertion tool.

use vstd::prelude::*;

use crate::text::views;

verus! {

/// The parsed command line.
#[derive(Debug)]
pub struct Cli {
    pub positionals: Vec<String>,
    pub out: Option<String>,
    pub json: bool,
    pub fail_on_violation: bool,
    pub quiet: bool,
    pub verbose: bool,
    pub help: bool,
    pub version: bool,
    pub bug_report: bool,
    pub feature_request: bool,
    pub sponsor: bool,
    pub star: bool,
}

/// The command line as plain values.
pub struct CliView {
    pub positionals: Seq<Seq<char>>,
    pub out: Option<Seq<char>>,
    pub json: bool,
    pub fail_on_violation: bool,
    pub quiet: bool,
    pub verbose: bool,
    pub help: bool,
    pub version: bool,
    pub bug_report: bool,
    pub feature_request: bool,
    pub sponsor: bool,
    pub star: bool,
}

impl View for Cli {
    type V = CliView;

    open spec fn view(&self) -> CliView {
        CliView {
            positionals: views(self.positionals@),
            out: match self.out {
                Some(s) => Some(s@),
                None => None,
            },
            json: self.json,
            fail_on_violation: self.fail_on_violation,
            quiet: self.quiet,
            verbose: self.verbose,
            help: self.help,
            version: self.version,
            bug_report: self.bug_report,
            feature_request: self.feature_request,
            sponsor: self.sponsor,
            star: self.star,
        }
    }
}

/// No argument read yet: no positionals, no output file, every flag off.
pub open spec fn empty_cli() -> CliView {
    CliView {
        positionals: Seq::empty(),
        out: None,
        json: false,
        fail_on_violation: false,
        quiet: false,
        verbose: false,
        help: false,
        version: false,
        bug_report: false,
        feature_request: false,
        sponsor: false,
        star: false,
    }
}

/// The effect of an argument other than `-o`: a flag sets its switch; anything else is a
/// positional.
pub open spec fn flag_effect(a: Seq<char>, c: CliView) -> CliView {
    if a == "--json"@ {
        CliView { json: true, ..c }
    } else if a == "--fail-on-violation"@ {
        CliView { fail_on_violation: true, ..c }
    } else if a == "-q"@ || a == "--quiet"@ {
        CliView { quiet: true, ..c }
    } else if a == "-v"@ || a == "--verbose"@ {
        CliView { verbose: true, ..c }
    } else if a == "-h"@ || a == "--help"@ {
        CliView { help: true, ..c }
    } else if a == "-V"@ || a == "--version"@ {
        CliView { version: true, ..c }
    } else if a == "--bug-report"@ {
        CliView { bug_report: true, ..c }
    } else if a == "--feature-request"@ {
        CliView { feature_request: true, ..c }
    } else if a == "--sponsor"@ {
        CliView { sponsor: true, ..c }
    } else if a == "--star"@ {
        CliView { star: true, ..c }
    } else {
        CliView { positionals: c.positionals.push(a), ..c }
    }
}

/// The command line after reading `args[i..]` on top of `c`: `-o` takes the next argument as
/// the output file (none when `-o` is the last argument); every other argument has its
/// `flag_effect`.
pub open spec fn read_args(args: Seq<Seq<char>>, i: int, c: CliView) -> CliView
    decreases args.len() - i,
{
    if i < 0 || i >= args.len() {
        c
    } else if args[i] == "-o"@ {
        if i + 1 < args.len() {
            read_args(args, i + 2, CliView { out: Some(args[i + 1]), ..c })
        } else {
            read_args(args, i + 1, CliView { out: None, ..c })
        }
    } else {
        read_args(args, i + 1, flag_effect(args[i], c))
    }
}

/// Whether `s` spells `word`.
fn spells(s: &String, word: &str) -> (r: bool)
    ensures
        r == (s@ == word@),
{
    crate::text::same_chars(&crate::text::chars_of(s.as_str()), &crate::text::chars_of(word))
}

fn apply_flag(c: &mut Cli, a: &String)
    ensures
        final(c)@ == flag_effect(a@, old(c)@),
{
    if spells(a, "--json") {
        c.json = true;
    } else if spells(a, "--fail-on-violation") {
        c.fail_on_violation = true;
    } else if spells(a, "-q") || spells(a, "--quiet") {
        c.quiet = true;
    } else if spells(a, "-v") || spells(a, "--verbose") {
        c.verbose = true;
    } else if spells(a, "-h") || spells(a, "--help") {
        c.help = true;
    } else if spells(a, "-V") || spells(a, "--version") {
        c.version = true;
    } else if spells(a, "--bug-report") {
        c.bug_report = true;
    } else if spells(a, "--feature-request") {
        c.feature_request = true;
    } else if spells(a, "--sponsor") {
        c.sponsor = true;
    } else if spells(a, "--star") {
        c.star = true;
    } else {
        let ghost pv = views(c.positionals@);
        c.positionals.push(a.clone());
        assert(views(c.positionals@) =~= pv.push(a@));
    }
}

/// Reads the command-line arguments (without the program name).
pub fn parse_cli(args: &Vec<String>) -> (r: Cli)
    ensures
        r@ == read_args(views(args@), 0, empty_cli()),
{
    let ghost av = views(args@);
    let mut c = Cli {
        positionals: Vec::new(),
        out: None,
        json: false,
        fail_on_violation: false,
        quiet: false,
        verbose: false,
        help: false,
        version: false,
        bug_report: false,
        feature_request: false,
        sponsor: false,
        star: false,
    };
    assert(views(c.positionals@) =~= Seq::<Seq<char>>::empty());
    assert(c@ == empty_cli());
    let mut i: usize = 0;
    while i < args.len()
        invariant
            av == views(args@),
            i <= args.len(),
            read_args(av, 0, empty_cli()) == read_args(av, i as int, c@),
        decreases args.len() - i,
    {
        let a = &args[i];
        assert(av[i as int] == a@);
        if spells(a, "-o") {
            if i + 1 < args.len() {
                assert(av[i + 1] == args@[i + 1]@);
                c.out = Some(args[i + 1].clone());
                i = i + 2;
            } else {
                c.out = None;
                i = i + 1;
            }
        } else {
            apply_flag(&mut c, a);
            i = i + 1;
        }
    }
    c
}


/// The exit status a finished run asks for: 3 when `--fail-on-violation` was given and setup
/// is still violated (the worst slack after the run, in zeptoseconds, is negative); none
/// otherwise.
pub fn violation_exit_code(cli: &Cli, after_wns: i64) -> (r: Option<i32>)
    ensures
        r == (if cli.fail_on_violation && after_wns < 0 {
            Some(3i32)
        } else {
            None::<i32>
        }),
{
    if cli.fail_on_violation && after_wns < 0 {
        Some(3)
    } else {
        None
    }
}

} // verus!
