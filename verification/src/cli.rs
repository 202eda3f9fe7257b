//! The command line: which command is asked for, and the arguments of `kiss-cache prune`.

use crate::path;
use crate::prune::Config;
use crate::text;
use crate::text::{chars_of, parse_u64, same_text};
use lexopt::ValueExt;
use vstd::prelude::*;
use vstd::slice::slice_to_vec;
use vstd::string::*;
use vstd::utf8::*;

verus! {

/// How the program is used.
pub const USAGE: &'static str = "kiss-cache: a self-hosted Nix binary cache pruner

Usage: kiss-cache <COMMAND>

Commands:
  prune      Trim a binary cache according to GC roots
  with-lock  Run a publish command under a cooperative pruner lock

Run `kiss-cache <COMMAND> --help` for command-specific options.

Options:
  -h, --help     Print help
  -V, --version  Print version";

/// How `kiss-cache prune` is used.
pub const PRUNE_USAGE: &'static str = "Trim Nix binary caches according to GC roots

Usage: kiss-cache prune [-n|--dry-run] [--lock-wait <SECS>] <CACHEDIR> <GCROOTS>...

Arguments:
  CACHEDIR    Cache directory
  GCROOTS     Directories of marker files naming store paths to keep

Options:
  -n, --dry-run         Do not actually delete files
      --lock-wait SECS  How long to wait for in-flight uploads [default: 600]
  -h, --help            Print help";

/// How long to wait for uploads unless told otherwise, in seconds.
pub const DEFAULT_LOCK_WAIT: u64 = 600;

// ---------------------------------------------------------------------------------------------
// Commands
// ---------------------------------------------------------------------------------------------
/// What the program is asked to do.
#[derive(Debug)]
pub enum Command {
    /// To prune, with these arguments.
    Prune(Vec<String>),
    /// To publish under a lock, with these arguments.
    WithLock(Vec<String>),
    /// To print the usage.
    Help,
    /// To print the version.
    Version,
    /// Something that it does not know.
    Unknown(String),
    /// Nothing.
    Missing,
}

/// What the program is asked to do.
#[verifier::ext_equal]
pub enum CommandView {
    Prune(Seq<Seq<char>>),
    WithLock(Seq<Seq<char>>),
    Help,
    Version,
    Unknown(Seq<char>),
    Missing,
}

impl View for Command {
    type V = CommandView;

    open spec fn view(&self) -> CommandView {
        match self {
            Command::Prune(rest) => CommandView::Prune(text::texts(rest@)),
            Command::WithLock(rest) => CommandView::WithLock(text::texts(rest@)),
            Command::Help => CommandView::Help,
            Command::Version => CommandView::Version,
            Command::Unknown(name) => CommandView::Unknown(name@),
            Command::Missing => CommandView::Missing,
        }
    }
}

/// The first argument says what to do.
pub open spec fn command_of(args: Seq<Seq<char>>) -> CommandView {
    if args.len() == 0 {
        CommandView::Missing
    } else if args[0] == "prune"@ {
        CommandView::Prune(args.skip(1))
    } else if args[0] == "with-lock"@ {
        CommandView::WithLock(args.skip(1))
    } else if args[0] == "-h"@ || args[0] == "--help"@ {
        CommandView::Help
    } else if args[0] == "-V"@ || args[0] == "--version"@ {
        CommandView::Version
    } else {
        CommandView::Unknown(args[0])
    }
}

/// The arguments after the first.
fn rest_of(args: &Vec<String>) -> (r: Vec<String>)
    requires
        args@.len() > 0,
    ensures
        text::texts(r@) == text::texts(args@).skip(1),
{
    let mut out: Vec<String> = Vec::new();
    let mut i: usize = 1;
    while i < args.len()
        invariant
            1 <= i <= args@.len(),
            out@.len() == i - 1,
            forall|k: int| 0 <= k < i - 1 ==> (#[trigger] out@[k])@ == args@[k + 1]@,
        decreases args@.len() - i,
    {
        out.push(args[i].clone());
        i = i + 1;
    }
    out
}

/// What the program is asked to do by its arguments, without its own name.
pub fn parse_command(args: &Vec<String>) -> (r: Command)
    ensures
        r@ == command_of(text::texts(args@)),
{
    if args.len() == 0 {
        return Command::Missing;
    }
    let name = args[0].as_str();
    if same_text(name, "prune") {
        Command::Prune(rest_of(args))
    } else if same_text(name, "with-lock") {
        Command::WithLock(rest_of(args))
    } else if same_text(name, "-h") || same_text(name, "--help") {
        Command::Help
    } else if same_text(name, "-V") || same_text(name, "--version") {
        Command::Version
    } else {
        Command::Unknown(args[0].clone())
    }
}

// ---------------------------------------------------------------------------------------------
// The lexer
// ---------------------------------------------------------------------------------------------
/// An argument, as the lexer tells them apart.
#[derive(Debug)]
pub enum Token {
    /// A short option, without its dash.
    Short(char),
    /// A long option, without its dashes.
    Long(String),
    /// A positional argument.
    Value(String),
}

/// An argument, as the lexer tells them apart.
#[verifier::ext_equal]
pub enum TokenView {
    Short(char),
    Long(Seq<char>),
    Value(Seq<char>),
}

impl View for Token {
    type V = TokenView;

    open spec fn view(&self) -> TokenView {
        match self {
            Token::Short(c) => TokenView::Short(*c),
            Token::Long(name) => TokenView::Long(name@),
            Token::Value(value) => TokenView::Value(value@),
        }
    }
}

/// The lexer of command lines.
#[verifier::external_type_specification]
#[verifier::external_body]
pub struct ExParser(lexopt::Parser);

/// What the lexer says is wrong with a command line.
#[verifier::external_type_specification]
#[verifier::external_body]
pub struct ExLexError(lexopt::Error);

/// What a lexer has in store: the option that came last, with its dashes, or nothing; what is left
/// of the argument that it is in the middle of, with a mark that says what that is, or nothing
/// between arguments; then the arguments that it has not read.
pub uninterp spec fn lexer_holds(lexer: lexopt::Parser) -> Seq<Seq<char>>;

/// What the next argument is, or what is wrong with it, and what is in store then.
pub uninterp spec fn lex_next(held: Seq<Seq<char>>) -> (
    Result<Option<TokenView>, Seq<char>>,
    Seq<Seq<char>>,
);

/// What the value of an option is, or what is wrong with it, and what is in store then.
pub uninterp spec fn lex_value(held: Seq<Seq<char>>) -> (
    Result<Seq<char>, Seq<char>>,
    Seq<Seq<char>>,
);

/// The text of an error of the lexer's own. An error that only carries one from elsewhere has none
/// that is fixed.
pub uninterp spec fn lexer_says(e: lexopt::Error) -> Option<Seq<char>>;

/// The store of a lexer that is between arguments, after the option `last`.
pub open spec fn between(last: Seq<char>, unread: Seq<Seq<char>>) -> Seq<Seq<char>> {
    seq![last, Seq::<char>::empty()] + unread
}

/// The store of a lexer that has read nothing.
pub open spec fn unlexed(args: Seq<Seq<char>>) -> Seq<Seq<char>> {
    between(Seq::empty(), args)
}

/// The option that came last, with its dashes, after one more argument has come.
pub open spec fn last_option(last: Seq<char>, token: TokenView) -> Seq<char> {
    match token {
        TokenView::Short(c) => seq!['-', c],
        TokenView::Long(name) => "--"@ + name,
        TokenView::Value(_) => last,
    }
}

/// What is said where the value of an option is missing.
pub open spec fn missing_value(option: Seq<char>) -> Seq<char> {
    "missing argument for option '"@ + option + "'"@
}

/// How much there is in a list: a character counts for one, and so does an argument.
pub open spec fn list_size(list: Seq<Seq<char>>) -> nat
    decreases list.len(),
{
    if list.len() == 0 {
        0
    } else {
        list_size(list.drop_last()) + list.last().len() + 1
    }
}

/// How much there is to read in a store.
pub open spec fn store_size(held: Seq<Seq<char>>) -> nat {
    list_size(held.skip(1))
}

/// Whether an argument is no option: it does not begin with a dash, or is nothing but a dash.
pub open spec fn is_positional(arg: Seq<char>) -> bool {
    arg.len() <= 1 || arg[0] != '-'
}

/// What a plain argument is: a positional one, a single short option, or a long option without a
/// value of its own. Nothing is said of several short options in one argument, of `--name=value`,
/// and of `--`.
pub open spec fn plain_token(arg: Seq<char>) -> Option<TokenView> {
    if is_positional(arg) {
        Some(TokenView::Value(arg))
    } else if arg[1] != '-' {
        if arg.len() == 2 {
            Some(TokenView::Short(arg[1]))
        } else {
            None
        }
    } else if arg.len() > 2 && !arg.contains('=') {
        Some(TokenView::Long(arg.skip(2)))
    } else {
        None
    }
}

/// The token in an answer of the lexer, or the text of its error.
pub open spec fn answer_view(r: Result<Option<Token>, lexopt::Error>) -> Result<
    Option<TokenView>,
    Seq<char>,
> {
    match r {
        Ok(Some(token)) => Ok(Some(token@)),
        Ok(None) => Ok(None),
        Err(e) => Err(lexer_says(e)->0),
    }
}

/// The value in an answer of the lexer, or the text of its error.
pub open spec fn value_view(r: Result<String, lexopt::Error>) -> Result<Seq<char>, Seq<char>> {
    match r {
        Ok(value) => Ok(value@),
        Err(e) => Err(lexer_says(e)->0),
    }
}

/// `Display` of `lexopt::Error`: the text of an error. That of an error which only carries one from
/// elsewhere (`ParsingFailed`, `Custom`) is left to that one.
#[verifier::external_body]
fn lexer_error_text(e: &lexopt::Error) -> (r: String)
    ensures
        lexer_says(*e) matches Some(text) ==> r@ == text,
{
    e.to_string()
}

/// `lexopt::Parser::from_args`: a lexer that has the arguments in store, all of them unread. Every
/// lexer here is made by it, so that all it has in store is text.
#[verifier::external_body]
fn lexer_of(args: Vec<String>) -> (r: lexopt::Parser)
    ensures
        lexer_holds(r) == unlexed(text::texts(args@)),
{
    lexopt::Parser::from_args(args)
}

/// `lexopt::Parser::next`: the next option or positional argument. What comes depends on what is
/// in store alone. Between arguments, a plain argument comes as what it is and leaves the lexer
/// between arguments again, and the end comes when nothing is left. Every argument that comes
/// leaves less in store. An error is one of the lexer's own.
#[verifier::external_body]
fn lexer_next(lexer: &mut lexopt::Parser) -> (r: Result<Option<Token>, lexopt::Error>)
    ensures
        (answer_view(r), lexer_holds(*final(lexer))) == lex_next(lexer_holds(*old(lexer))),
        r matches Err(e) ==> lexer_says(e) is Some,
        forall|last: Seq<char>, unread: Seq<Seq<char>>|
            lexer_holds(*old(lexer)) == #[trigger] between(last, unread) ==> {
                &&& unread.len() == 0 ==> answer_view(r) == Ok::<Option<TokenView>, Seq<char>>(None)
                    && lexer_holds(*final(lexer)) == between(last, unread)
                &&& unread.len() > 0 && plain_token(unread[0]) is Some ==> answer_view(r) == Ok::<
                    Option<TokenView>,
                    Seq<char>,
                >(plain_token(unread[0])) && lexer_holds(*final(lexer)) == between(
                    last_option(last, plain_token(unread[0])->0),
                    unread.skip(1),
                )
            },
        r matches Ok(Some(_)) ==> store_size(lexer_holds(*final(lexer))) < store_size(
            lexer_holds(*old(lexer)),
        ),
{
    Ok(match lexer.next()? {
        Some(lexopt::Arg::Short(c)) => Some(Token::Short(c)),
        Some(lexopt::Arg::Long(name)) => Some(Token::Long(name.to_owned())),
        Some(lexopt::Arg::Value(value)) => Some(Token::Value(value.string()?)),
        None => None,
    })
}

/// `lexopt::Parser::value`: the value of the option that came last. What it is depends on what is
/// in store alone: between arguments it is the next argument, whatever that looks like, and there
/// is none where nothing is left; the error then names the option that came last. Taking it leaves
/// no more in store than there was. An error is one of the lexer's own.
#[verifier::external_body]
fn lexer_value(lexer: &mut lexopt::Parser) -> (r: Result<String, lexopt::Error>)
    ensures
        (value_view(r), lexer_holds(*final(lexer))) == lex_value(lexer_holds(*old(lexer))),
        r matches Err(e) ==> lexer_says(e) is Some,
        forall|last: Seq<char>, unread: Seq<Seq<char>>|
            lexer_holds(*old(lexer)) == #[trigger] between(last, unread) ==> match r {
                Ok(value) => unread.len() > 0 && value@ == unread[0] && lexer_holds(*final(lexer))
                    == between(last, unread.skip(1)),
                Err(e) => unread.len() == 0 && (last.len() > 0 ==> lexer_says(e) == Some(
                    missing_value(last),
                )),
            },
        r is Ok ==> store_size(lexer_holds(*final(lexer))) <= store_size(
            lexer_holds(*old(lexer)),
        ),
{
    lexer.value()?.string()
}

// ---------------------------------------------------------------------------------------------
// Arguments of `kiss-cache prune`
// ---------------------------------------------------------------------------------------------
/// What a run is to do.
#[verifier::ext_equal]
pub struct ConfigView {
    pub dry_run: bool,
    pub cache_dir: Seq<u8>,
    pub gcroots: Seq<Seq<u8>>,
    pub lock_wait: u64,
}

impl View for Config {
    type V = ConfigView;

    open spec fn view(&self) -> ConfigView {
        ConfigView {
            dry_run: self.dry_run,
            cache_dir: self.cache_dir@,
            gcroots: path::paths_view(self.gcroots@),
            lock_wait: self.lock_wait,
        }
    }
}

/// What the arguments ask for.
#[derive(Debug)]
pub enum PruneRequest {
    /// To print the usage.
    Help,
    /// To prune.
    Run(Config),
}

/// What is wrong with the arguments.
#[derive(Debug)]
pub enum ArgsError {
    /// What the lexer says.
    Lex(lexopt::Error),
    /// There is no such option.
    InvalidOption(String),
    /// The time to wait is not a number.
    BadLockWait(String),
    /// There is no cache directory.
    MissingCacheDir,
    /// There is no directory of garbage collection roots.
    MissingGcroots,
}

impl ArgsError {
    /// The error as text; `why` gives that of a value that is not a number.
    pub fn to_text<G: Fn(&String) -> String>(&self, why: G) -> (r: String)
        requires
            forall|value: &String| #[trigger] call_requires(why, (value,)),
        ensures
            match self {
                ArgsError::Lex(e) => lexer_says(*e) matches Some(text) ==> r@ == text,
                ArgsError::InvalidOption(option) => r@ == "invalid option '"@ + option@ + "'"@,
                ArgsError::BadLockWait(value) => call_ensures(why, (value,), r),
                ArgsError::MissingCacheDir => r@ == "missing required argument CACHEDIR"@,
                ArgsError::MissingGcroots => r@ == "missing required argument GCROOTS"@,
            },
    {
        match self {
            ArgsError::Lex(e) => lexer_error_text(e),
            ArgsError::InvalidOption(option) => {
                let mut out = "invalid option '".to_owned();
                out.append(option.as_str());
                out.append("'");
                out
            },
            ArgsError::BadLockWait(value) => why(value),
            ArgsError::MissingCacheDir => "missing required argument CACHEDIR".to_owned(),
            ArgsError::MissingGcroots => "missing required argument GCROOTS".to_owned(),
        }
    }
}

/// What the arguments ask for, or what is wrong with them.
#[verifier::ext_equal]
pub enum ParsedView {
    Help,
    Run(ConfigView),
    LexError(Seq<char>),
    InvalidOption(Seq<char>),
    BadLockWait(Seq<char>),
    MissingCacheDir,
    MissingGcroots,
}

/// What came of parsing.
pub open spec fn parsed_view(r: Result<PruneRequest, ArgsError>) -> ParsedView {
    match r {
        Ok(PruneRequest::Help) => ParsedView::Help,
        Ok(PruneRequest::Run(config)) => ParsedView::Run(config@),
        Err(ArgsError::Lex(e)) => ParsedView::LexError(lexer_says(e)->0),
        Err(ArgsError::InvalidOption(option)) => ParsedView::InvalidOption(option@),
        Err(ArgsError::BadLockWait(value)) => ParsedView::BadLockWait(value@),
        Err(ArgsError::MissingCacheDir) => ParsedView::MissingCacheDir,
        Err(ArgsError::MissingGcroots) => ParsedView::MissingGcroots,
    }
}

/// The options and positional arguments so far.
#[verifier::ext_equal]
pub struct OptionsView {
    pub dry_run: bool,
    pub lock_wait: u64,
    pub positional: Seq<Seq<u8>>,
}

/// What holds unless the arguments say otherwise.
pub open spec fn default_options() -> OptionsView {
    OptionsView { dry_run: false, lock_wait: DEFAULT_LOCK_WAIT, positional: Seq::empty() }
}

/// What an argument asks for.
#[verifier::ext_equal]
pub enum AcceptView {
    /// To go on with these options.
    More(OptionsView),
    /// To take a value for the time to wait.
    LockWait,
    /// To print the usage.
    Help,
    /// There is no such option.
    Invalid(Seq<char>),
}

/// What an argument asks for.
pub open spec fn accepted(o: OptionsView, token: TokenView) -> AcceptView {
    match token {
        TokenView::Short(c) => if c == 'n' {
            AcceptView::More(OptionsView { dry_run: true, ..o })
        } else if c == 'h' {
            AcceptView::Help
        } else {
            AcceptView::Invalid(seq!['-', c])
        },
        TokenView::Long(name) => if name == "dry-run"@ {
            AcceptView::More(OptionsView { dry_run: true, ..o })
        } else if name == "lock-wait"@ {
            AcceptView::LockWait
        } else if name == "help"@ {
            AcceptView::Help
        } else {
            AcceptView::Invalid("--"@ + name)
        },
        TokenView::Value(value) => AcceptView::More(
            OptionsView { positional: o.positional.push(encode_utf8(value)), ..o },
        ),
    }
}

/// What the options come to when there are no more arguments: the first positional argument is the
/// cache directory, and there is at least one more.
pub open spec fn finished(o: OptionsView) -> ParsedView {
    if o.positional.len() == 0 {
        ParsedView::MissingCacheDir
    } else if o.positional.len() == 1 {
        ParsedView::MissingGcroots
    } else {
        ParsedView::Run(
            ConfigView {
                dry_run: o.dry_run,
                cache_dir: o.positional[0],
                gcroots: o.positional.skip(1),
                lock_wait: o.lock_wait,
            },
        )
    }
}

/// What plain arguments come to, after those that gave the options. The value of an option may be
/// any argument. Where an argument comes that is not plain, nothing is said.
pub open spec fn plain_parsed(args: Seq<Seq<char>>, o: OptionsView) -> Option<ParsedView>
    decreases args.len(),
{
    if args.len() == 0 {
        Some(finished(o))
    } else {
        match plain_token(args[0]) {
            None => None,
            Some(token) => match accepted(o, token) {
                AcceptView::More(next) => plain_parsed(args.skip(1), next),
                AcceptView::LockWait => if args.len() == 1 {
                    Some(ParsedView::LexError(missing_value("--lock-wait"@)))
                } else {
                    match text::parsed_u64(args[1]) {
                        Some(secs) => plain_parsed(
                            args.skip(1).skip(1),
                            OptionsView { lock_wait: secs, ..o },
                        ),
                        None => Some(ParsedView::BadLockWait(args[1])),
                    }
                },
                AcceptView::Help => Some(ParsedView::Help),
                AcceptView::Invalid(option) => Some(ParsedView::InvalidOption(option)),
            },
        }
    }
}

/// What the arguments in store come to, after those that gave the options. Each argument leaves
/// less in store; one that did not would be an error of the lexer.
pub open spec fn parsed_from(held: Seq<Seq<char>>, o: OptionsView) -> ParsedView
    decreases store_size(held),
{
    let (answer, rest) = lex_next(held);
    match answer {
        Err(e) => ParsedView::LexError(e),
        Ok(None) => finished(o),
        Ok(Some(token)) => if store_size(rest) >= store_size(held) {
            ParsedView::LexError(Seq::empty())
        } else {
            match accepted(o, token) {
                AcceptView::More(next) => parsed_from(rest, next),
                AcceptView::LockWait => {
                    let (value, left) = lex_value(rest);
                    match value {
                        Err(e) => ParsedView::LexError(e),
                        Ok(value) => if store_size(left) > store_size(rest) {
                            ParsedView::LexError(Seq::empty())
                        } else {
                            match text::parsed_u64(value) {
                                Some(secs) => parsed_from(
                                    left,
                                    OptionsView { lock_wait: secs, ..o },
                                ),
                                None => ParsedView::BadLockWait(value),
                            }
                        },
                    }
                },
                AcceptView::Help => ParsedView::Help,
                AcceptView::Invalid(option) => ParsedView::InvalidOption(option),
            }
        },
    }
}

/// The options and positional arguments so far.
#[derive(Debug)]
pub struct PruneOptions {
    dry_run: bool,
    lock_wait: u64,
    positional: Vec<Vec<u8>>,
}

impl View for PruneOptions {
    type V = OptionsView;

    closed spec fn view(&self) -> OptionsView {
        OptionsView {
            dry_run: self.dry_run,
            lock_wait: self.lock_wait,
            positional: path::paths_view(self.positional@),
        }
    }
}

/// What an argument asks for.
#[derive(Debug)]
pub enum Accept {
    /// To go on.
    More,
    /// To take a value for the time to wait.
    LockWait,
    /// To print the usage.
    Help,
    /// There is no such option.
    Invalid(String),
}

impl PruneOptions {
    /// What holds unless the arguments say otherwise.
    pub fn new() -> (r: Self)
        ensures
            r@ == default_options(),
    {
        let r = PruneOptions {
            dry_run: false,
            lock_wait: DEFAULT_LOCK_WAIT,
            positional: Vec::new(),
        };
        r
    }

    /// Takes an argument into account.
    pub fn accept(&mut self, token: &Token) -> (r: Accept)
        ensures
            accepted(old(self)@, token@) == (match r {
                Accept::More => AcceptView::More(final(self)@),
                Accept::LockWait => AcceptView::LockWait,
                Accept::Help => AcceptView::Help,
                Accept::Invalid(option) => AcceptView::Invalid(option@),
            }),
            !(r is More) ==> final(self)@ == old(self)@,
    {
        match token {
            Token::Short(c) => {
                if *c == 'n' {
                    self.dry_run = true;
                    Accept::More
                } else if *c == 'h' {
                    Accept::Help
                } else {
                    let mut option = String::new();
                    option.push('-');
                    option.push(*c);
                    Accept::Invalid(option)
                }
            },
            Token::Long(name) => {
                if same_text(name.as_str(), "dry-run") {
                    self.dry_run = true;
                    Accept::More
                } else if same_text(name.as_str(), "lock-wait") {
                    Accept::LockWait
                } else if same_text(name.as_str(), "help") {
                    Accept::Help
                } else {
                    let mut option = "--".to_owned();
                    option.append(name.as_str());
                    Accept::Invalid(option)
                }
            },
            Token::Value(value) => {
                let ghost before = self.positional@;
                self.positional.push(slice_to_vec(value.as_str().as_bytes()));
                assert(path::paths_view(self.positional@) =~= path::paths_view(before).push(
                    encode_utf8(value@),
                ));
                Accept::More
            },
        }
    }

    /// Sets the time to wait, in seconds.
    pub fn set_lock_wait(&mut self, secs: u64)
        ensures
            final(self)@ == (OptionsView { lock_wait: secs, ..old(self)@ }),
    {
        self.lock_wait = secs;
    }

    /// What the options come to when there are no more arguments.
    ///
    /// # Errors
    ///
    /// `MissingCacheDir` or `MissingGcroots` if there are too few positional arguments.
    pub fn finish(self) -> (r: Result<PruneRequest, ArgsError>)
        ensures
            parsed_view(r) == finished(self@),
    {
        if self.positional.len() == 0 {
            return Err(ArgsError::MissingCacheDir);
        }
        if self.positional.len() == 1 {
            return Err(ArgsError::MissingGcroots);
        }
        let cache_dir = slice_to_vec(self.positional[0].as_slice());
        let mut gcroots: Vec<Vec<u8>> = Vec::new();
        let mut i: usize = 1;
        while i < self.positional.len()
            invariant
                1 <= i <= self.positional@.len(),
                gcroots@.len() == i - 1,
                forall|k: int|
                    0 <= k < i - 1 ==> (#[trigger] gcroots@[k])@ == self.positional@[k + 1]@,
            decreases self.positional@.len() - i,
        {
            gcroots.push(slice_to_vec(self.positional[i].as_slice()));
            i = i + 1;
        }
        let config = Config {
            dry_run: self.dry_run,
            cache_dir,
            gcroots,
            lock_wait: self.lock_wait,
        };
        Ok(PruneRequest::Run(config))
    }
}

/// The bytes of texts.
pub open spec fn encoded(texts: Seq<Seq<char>>) -> Seq<Seq<u8>> {
    texts.map_values(|t: Seq<char>| encode_utf8(t))
}

/// Whether no argument is an option.
pub open spec fn all_positional(args: Seq<Seq<char>>) -> bool {
    forall|k: int| 0 <= k < args.len() ==> is_positional(#[trigger] args[k])
}

/// Parses the arguments of `kiss-cache prune`.
///
/// # Errors
///
/// What is wrong with them.
pub fn parse_prune_args(args: Vec<String>) -> (r: Result<PruneRequest, ArgsError>)
    ensures
        parsed_view(r) == parsed_from(unlexed(text::texts(args@)), default_options()),
        r matches Err(ArgsError::Lex(e)) ==> lexer_says(e) is Some,
        plain_parsed(text::texts(args@), default_options()) matches Some(p) ==> parsed_view(r) == p,
{
    let ghost all = text::texts(args@);
    let ghost plain = plain_parsed(all, default_options());
    let mut options = PruneOptions::new();
    let mut lexer = lexer_of(args);
    let ghost mut unread = all;
    let ghost mut last = Seq::<char>::empty();
    loop
        invariant
            parsed_from(lexer_holds(lexer), options@) == parsed_from(
                unlexed(all),
                default_options(),
            ),
            all == text::texts(args@),
            plain == plain_parsed(all, default_options()),
            plain is Some ==> lexer_holds(lexer) == between(last, unread) && plain == plain_parsed(
                unread,
                options@,
            ),
        decreases store_size(lexer_holds(lexer)),
    {
        let answer = match lexer_next(&mut lexer) {
            Ok(answer) => answer,
            Err(e) => return Err(ArgsError::Lex(e)),
        };
        let token = match answer {
            Some(token) => token,
            None => return options.finish(),
        };
        proof {
            unread = unread.skip(1);
            last = last_option(last, token@);
        }
        match options.accept(&token) {
            Accept::More => {},
            Accept::LockWait => {
                proof {
                    reveal_strlit("--");
                    reveal_strlit("lock-wait");
                    reveal_strlit("--lock-wait");
                    assert("--"@ + "lock-wait"@ =~= "--lock-wait"@);
                }
                let value = match lexer_value(&mut lexer) {
                    Ok(value) => value,
                    Err(e) => return Err(ArgsError::Lex(e)),
                };
                let chars = chars_of(value.as_str());
                match parse_u64(chars.as_slice()) {
                    Some(secs) => options.set_lock_wait(secs),
                    None => return Err(ArgsError::BadLockWait(value)),
                }
                proof {
                    unread = unread.skip(1);
                }
            },
            Accept::Help => return Ok(PruneRequest::Help),
            Accept::Invalid(option) => return Err(ArgsError::InvalidOption(option)),
        }
    }
}

// ---------------------------------------------------------------------------------------------
// Laws
// ---------------------------------------------------------------------------------------------
/// Positional arguments add up in order, whatever follows them.
pub proof fn positional_arguments_add_up(
    args: Seq<Seq<char>>,
    rest: Seq<Seq<char>>,
    o: OptionsView,
)
    requires
        all_positional(args),
    ensures
        plain_parsed(args + rest, o) == plain_parsed(
            rest,
            OptionsView { positional: o.positional + encoded(args), ..o },
        ),
    decreases args.len(),
{
    if args.len() == 0 {
        assert(args + rest =~= rest);
        assert(o.positional + encoded(args) =~= o.positional);
    } else {
        let next = OptionsView { positional: o.positional.push(encode_utf8(args[0])), ..o };
        let more = args.skip(1);
        assert forall|k: int| 0 <= k < more.len() implies is_positional(#[trigger] more[k]) by {
            assert(more[k] == args[k + 1]);
        }
        positional_arguments_add_up(more, rest, next);
        assert((args + rest).skip(1) =~= more + rest);
        assert(next.positional + encoded(more) =~= o.positional + encoded(args));
    }
}

/// `-n` and `--dry-run` ask for a dry run, wherever they stand.
pub proof fn a_dry_run_can_be_asked_for(
    before: Seq<Seq<char>>,
    option: Seq<char>,
    after: Seq<Seq<char>>,
    o: OptionsView,
)
    requires
        all_positional(before),
        option == "-n"@ || option == "--dry-run"@,
    ensures
        plain_parsed(before + seq![option] + after, o) == plain_parsed(
            before + after,
            OptionsView { dry_run: true, ..o },
        ),
{
    let rest = seq![option] + after;
    let so_far = OptionsView { positional: o.positional + encoded(before), ..o };
    let dry = OptionsView { dry_run: true, ..o };
    assert(before + seq![option] + after =~= before + rest);
    positional_arguments_add_up(before, rest, o);
    positional_arguments_add_up(before, after, dry);
    reveal_strlit("-n");
    reveal_strlit("--dry-run");
    reveal_strlit("dry-run");
    reveal_strlit("lock-wait");
    if option == "--dry-run"@ {
        assert(option.skip(2) =~= "dry-run"@);
    }
    assert(rest.skip(1) =~= after);
    assert(accepted(so_far, plain_token(option)->0) == AcceptView::More(
        OptionsView { dry_run: true, ..so_far },
    ));
}

/// `--lock-wait` with a number after it sets the time to wait, wherever the two stand; what is
/// after it and is no number is refused, and so is the option without a value.
pub proof fn a_time_to_wait_can_be_given(
    before: Seq<Seq<char>>,
    value: Seq<char>,
    after: Seq<Seq<char>>,
    o: OptionsView,
)
    requires
        all_positional(before),
    ensures
        plain_parsed(before + seq!["--lock-wait"@, value] + after, o) == match text::parsed_u64(
            value,
        ) {
            Some(secs) => plain_parsed(before + after, OptionsView { lock_wait: secs, ..o }),
            None => Some(ParsedView::BadLockWait(value)),
        },
        plain_parsed(before + seq!["--lock-wait"@], o) == Some(
            ParsedView::LexError(missing_value("--lock-wait"@)),
        ),
{
    let rest = seq!["--lock-wait"@, value] + after;
    let so_far = OptionsView { positional: o.positional + encoded(before), ..o };
    assert(before + seq!["--lock-wait"@, value] + after =~= before + rest);
    positional_arguments_add_up(before, rest, o);
    positional_arguments_add_up(before, seq!["--lock-wait"@], o);
    reveal_strlit("--lock-wait");
    reveal_strlit("dry-run");
    reveal_strlit("lock-wait");
    assert("--lock-wait"@.skip(2) =~= "lock-wait"@);
    assert(rest.skip(1).skip(1) =~= after);
    assert(accepted(so_far, plain_token("--lock-wait"@)->0) == AcceptView::LockWait);
    if let Some(secs) = text::parsed_u64(value) {
        positional_arguments_add_up(before, after, OptionsView { lock_wait: secs, ..o });
    }
}

/// `-h` and `--help` ask for the usage, whatever follows.
pub proof fn help_can_be_asked_for(
    before: Seq<Seq<char>>,
    option: Seq<char>,
    after: Seq<Seq<char>>,
    o: OptionsView,
)
    requires
        all_positional(before),
        option == "-h"@ || option == "--help"@,
    ensures
        plain_parsed(before + seq![option] + after, o) == Some(ParsedView::Help),
{
    let rest = seq![option] + after;
    assert(before + seq![option] + after =~= before + rest);
    positional_arguments_add_up(before, rest, o);
    reveal_strlit("-h");
    reveal_strlit("--help");
    reveal_strlit("help");
    reveal_strlit("dry-run");
    reveal_strlit("lock-wait");
    if option == "--help"@ {
        assert(option.skip(2) =~= "help"@);
    }
}

/// An option that there is not is refused by its name, whatever follows.
pub proof fn an_unknown_option_is_refused(
    before: Seq<Seq<char>>,
    option: Seq<char>,
    after: Seq<Seq<char>>,
    o: OptionsView,
)
    requires
        all_positional(before),
        !is_positional(option),
        plain_token(option) is Some,
        option != "-n"@ && option != "-h"@,
        option != "--dry-run"@ && option != "--lock-wait"@ && option != "--help"@,
    ensures
        plain_parsed(before + seq![option] + after, o) == Some(ParsedView::InvalidOption(option)),
{
    let rest = seq![option] + after;
    assert(before + seq![option] + after =~= before + rest);
    positional_arguments_add_up(before, rest, o);
    reveal_strlit("-n");
    reveal_strlit("-h");
    reveal_strlit("--");
    reveal_strlit("--dry-run");
    reveal_strlit("--lock-wait");
    reveal_strlit("--help");
    reveal_strlit("dry-run");
    reveal_strlit("lock-wait");
    reveal_strlit("help");
    if option[1] != '-' {
        assert(option =~= seq!['-', option[1]]);
        assert("-n"@ =~= seq!['-', 'n']);
        assert("-h"@ =~= seq!['-', 'h']);
    } else {
        let name = option.skip(2);
        assert(option =~= "--"@ + name);
        assert("--dry-run"@ =~= "--"@ + "dry-run"@);
        assert("--lock-wait"@ =~= "--"@ + "lock-wait"@);
        assert("--help"@ =~= "--"@ + "help"@);
    }
}

/// A line of positional arguments alone asks for a run on them, with nothing else changed.
pub proof fn positional_arguments_are_enough(args: Seq<Seq<char>>)
    requires
        all_positional(args),
    ensures
        plain_parsed(args, default_options()) == Some(
            finished(OptionsView { positional: encoded(args), ..default_options() }),
        ),
{
    let none = Seq::<Seq<char>>::empty();
    positional_arguments_add_up(args, none, default_options());
    assert(args + none =~= args);
    assert(default_options().positional + encoded(args) =~= encoded(args));
}

/// A command is known by its name, and gets all arguments behind it; without arguments there is
/// none.
pub proof fn a_command_is_known_by_its_name(name: Seq<char>, rest: Seq<Seq<char>>)
    ensures
        command_of(seq!["prune"@] + rest) == CommandView::Prune(rest),
        command_of(seq!["with-lock"@] + rest) == CommandView::WithLock(rest),
        command_of(seq!["-h"@] + rest) is Help,
        command_of(seq!["--help"@] + rest) is Help,
        command_of(seq!["-V"@] + rest) is Version,
        command_of(seq!["--version"@] + rest) is Version,
        name != "prune"@ && name != "with-lock"@ && name != "-h"@ && name != "--help"@ && name
            != "-V"@ && name != "--version"@ ==> command_of(seq![name] + rest)
            == CommandView::Unknown(name),
        command_of(Seq::empty()) is Missing,
{
    reveal_strlit("prune");
    reveal_strlit("with-lock");
    reveal_strlit("-h");
    reveal_strlit("--help");
    reveal_strlit("-V");
    reveal_strlit("--version");
    assert("prune"@.len() == 5);
    assert("with-lock"@.len() == 9);
    assert("-h"@.len() == 2);
    assert("--help"@.len() == 6);
    assert("-V"@.len() == 2);
    assert("--version"@.len() == 9);
    assert("-V"@[1] != "-h"@[1]);
    assert("with-lock"@[0] != "--version"@[0]);
    assert((seq!["prune"@] + rest).skip(1) =~= rest);
    assert((seq!["with-lock"@] + rest).skip(1) =~= rest);
}

/// Unless the arguments say otherwise, a run is no dry run and waits for ten minutes.
pub proof fn a_run_waits_for_ten_minutes()
    ensures
        default_options().lock_wait == 10 * 60,
        !default_options().dry_run,
        default_options().positional.len() == 0,
{
}

/// The first path is the cache directory, and all others are directories of roots, of which there
/// is at least one; what the options say is kept.
pub proof fn paths_are_taken_in_order(o: OptionsView, dir: Seq<u8>, roots: Seq<Seq<u8>>)
    ensures
        roots.len() > 0 ==> finished(OptionsView { positional: seq![dir] + roots, ..o })
            == ParsedView::Run(
            ConfigView {
                dry_run: o.dry_run,
                cache_dir: dir,
                gcroots: roots,
                lock_wait: o.lock_wait,
            },
        ),
        finished(OptionsView { positional: seq![dir], ..o }) is MissingGcroots,
        finished(OptionsView { positional: Seq::empty(), ..o }) is MissingCacheDir,
{
    assert((seq![dir] + roots).skip(1) =~= roots);
}

/// A line of paths alone asks for a run on them: the first is the cache directory, the others hold
/// the roots; it is no dry run, and waits for ten minutes.
pub proof fn a_line_of_paths_asks_for_a_run(dir: Seq<char>, roots: Seq<Seq<char>>)
    requires
        dir.len() <= 1 || dir[0] != '-',
        forall|k: int| 0 <= k < roots.len() ==> (#[trigger] roots[k]).len() <= 1 || roots[k][0] != '-',
        roots.len() > 0,
    ensures
        plain_parsed(seq![dir] + roots, default_options()) == Some(
            ParsedView::Run(
                ConfigView {
                    dry_run: false,
                    cache_dir: encode_utf8(dir),
                    gcroots: Seq::new(roots.len(), |k: int| encode_utf8(roots[k])),
                    lock_wait: 600,
                },
            ),
        ),
        plain_parsed(seq![dir], default_options()) == Some(ParsedView::MissingGcroots),
        plain_parsed(Seq::empty(), default_options()) == Some(ParsedView::MissingCacheDir),
{
    let args = seq![dir] + roots;
    let none = Seq::<Seq<char>>::empty();
    assert forall|k: int| 0 <= k < args.len() implies is_positional(#[trigger] args[k]) by {
        if k > 0 {
            assert(args[k] == roots[k - 1]);
        }
    }
    positional_arguments_are_enough(args);
    positional_arguments_are_enough(seq![dir]);
    positional_arguments_are_enough(none);
    let paths = Seq::new(roots.len(), |k: int| encode_utf8(roots[k]));
    paths_are_taken_in_order(default_options(), encode_utf8(dir), paths);
    assert(encoded(args) =~= seq![encode_utf8(dir)] + paths);
    assert(encoded(seq![dir]) =~= seq![encode_utf8(dir)]);
    assert(encoded(none) =~= Seq::<Seq<u8>>::empty());
}

/// What a plain argument is: a dash and one character more, which is no dash, is a short option; two
/// dashes and a name without an equals sign are a long one; and what does not begin with a dash, or
/// is nothing else, is a value.
pub proof fn options_are_known_by_their_dashes(c: char, name: Seq<char>, value: Seq<char>)
    ensures
        c != '-' ==> plain_token(seq!['-', c]) == Some(TokenView::Short(c)),
        name.len() > 0 && !name.contains('=') ==> plain_token(seq!['-', '-'] + name) == Some(
            TokenView::Long(name),
        ),
        value.len() == 0 || value[0] != '-' || value == seq!['-'] ==> plain_token(value) == Some(
            TokenView::Value(value),
        ),
        plain_token(seq!['-', '-']) is None,
        name.contains('=') ==> plain_token(seq!['-', '-'] + name) is None,
{
    let arg = seq!['-', '-'] + name;
    assert(arg.skip(2) =~= name);
    if name.contains('=') {
        let i = choose|i: int| 0 <= i < name.len() && name[i] == '=';
        assert(arg[i + 2] == '=');
    }
    if arg.contains('=') {
        let i = choose|i: int| 0 <= i < arg.len() && arg[i] == '=';
        assert(name[i - 2] == '=');
    }
}

/// What each argument asks for: `n` and `dry-run` for a dry run, `lock-wait` for a value, `h` and
/// `help` for the usage; a value is one path more; and anything else is refused by its name.
pub proof fn arguments_ask_for_what_they_say(
    o: OptionsView,
    c: char,
    name: Seq<char>,
    value: Seq<char>,
)
    ensures
        accepted(o, TokenView::Short('n')) == AcceptView::More(OptionsView { dry_run: true, ..o }),
        accepted(o, TokenView::Long("dry-run"@)) == AcceptView::More(
            OptionsView { dry_run: true, ..o },
        ),
        accepted(o, TokenView::Long("lock-wait"@)) is LockWait,
        accepted(o, TokenView::Short('h')) is Help,
        accepted(o, TokenView::Long("help"@)) is Help,
        accepted(o, TokenView::Value(value)) == AcceptView::More(
            OptionsView { positional: o.positional.push(encode_utf8(value)), ..o },
        ),
        c != 'n' && c != 'h' ==> accepted(o, TokenView::Short(c)) == AcceptView::Invalid(
            seq!['-', c],
        ),
        name != "dry-run"@ && name != "lock-wait"@ && name != "help"@ ==> accepted(
            o,
            TokenView::Long(name),
        ) == AcceptView::Invalid("--"@ + name),
{
    reveal_strlit("dry-run");
    reveal_strlit("lock-wait");
    reveal_strlit("help");
    assert("dry-run"@.len() == 7);
    assert("lock-wait"@.len() == 9);
    assert("help"@.len() == 4);
}

/// Whatever the lexer makes of a line, its answers count one by one: an option for a dry run and a
/// path let the rest decide, a time to wait takes its value first, and an error of the lexer, or the
/// end, decides at once.
pub proof fn the_answers_of_the_lexer_count_one_by_one(held: Seq<Seq<char>>, o: OptionsView)
    ensures
        ({
            let (answer, rest) = lex_next(held);
            let less = store_size(rest) < store_size(held);
            &&& answer matches Err(e) ==> parsed_from(held, o) == ParsedView::LexError(e)
            &&& answer matches Ok(None) ==> parsed_from(held, o) == finished(o)
            &&& less && answer == Ok::<Option<TokenView>, Seq<char>>(Some(TokenView::Short('n')))
                ==> parsed_from(held, o) == parsed_from(rest, OptionsView { dry_run: true, ..o })
            &&& less && answer == Ok::<Option<TokenView>, Seq<char>>(
                Some(TokenView::Long("dry-run"@)),
            ) ==> parsed_from(held, o) == parsed_from(rest, OptionsView { dry_run: true, ..o })
            &&& less && answer == Ok::<Option<TokenView>, Seq<char>>(Some(TokenView::Short('h')))
                ==> parsed_from(held, o) is Help
            &&& less && answer == Ok::<Option<TokenView>, Seq<char>>(Some(TokenView::Long("help"@)))
                ==> parsed_from(held, o) is Help
            &&& less ==> (answer matches Ok(Some(TokenView::Short(c))) ==> c == 'n' || c == 'h'
                || parsed_from(held, o) == ParsedView::InvalidOption(seq!['-', c]))
            &&& less ==> (answer matches Ok(Some(TokenView::Long(name))) ==> name == "dry-run"@
                || name == "lock-wait"@ || name == "help"@ || parsed_from(held, o)
                == ParsedView::InvalidOption("--"@ + name))
            &&& less ==> (answer matches Ok(Some(TokenView::Value(value))) ==> parsed_from(held, o)
                == parsed_from(
                rest,
                OptionsView { positional: o.positional.push(encode_utf8(value)), ..o },
            ))
            &&& less && answer == Ok::<Option<TokenView>, Seq<char>>(
                Some(TokenView::Long("lock-wait"@)),
            ) ==> match lex_value(rest) {
                (Err(e), _) => parsed_from(held, o) == ParsedView::LexError(e),
                (Ok(value), left) => store_size(left) <= store_size(rest) ==> match text::parsed_u64(
                    value,
                ) {
                    Some(secs) => parsed_from(held, o) == parsed_from(
                        left,
                        OptionsView { lock_wait: secs, ..o },
                    ),
                    None => parsed_from(held, o) == ParsedView::BadLockWait(value),
                },
            }
        }),
{
    arguments_ask_for_what_they_say(o, 'n', Seq::empty(), Seq::empty());
}

} // verus!
