//! `kiss-cache with-lock`: run a publish command under a cooperative pruner lock, then write a
//! gcroot marker.
//!
//! This is the writer's side of the lock protocol: take a lock, refresh it while the publish
//! command runs, write the marker, release. Local markers (paths) are locked in the file system;
//! remote markers (URLs) through `curl`, which can authenticate against the cache's front. A
//! server refuses remote locks while the pruner is running, so a remote lock that lands implies
//! that the prune has finished.

use crate::gcroots;
use crate::lock;
use crate::lock::lock_dir;
use crate::path;
use crate::path::{join, last_name, parent_dir};
use crate::publish;
use crate::publish::{run_publish, PublishAction, PublishEvent, PublishStage};
use crate::store_hash;
use crate::text;
use crate::text::{append_run, chars_of, has_prefix, lossy_text, same_text, text_of};
use vstd::prelude::*;
use vstd::slice::slice_subrange;
use vstd::string::*;
use vstd::utf8::*;

verus! {

/// Bounds every curl, in seconds, so that a hung connection cannot block forever.
pub const CURL_TIMEOUT_SECS: &'static str = "30";

/// How the command is used.
pub const USAGE: &'static str = "Run a publish command under a kiss-cache pruner lock, then write a
gcroot marker

Usage: kiss-cache with-lock [-h|--help] [--bearer TOKEN]
           <MARKER> <STORE-PATH> [CURL-OPT...] -- <COMMAND>...

Arguments:
  MARKER       The gcroot marker, either a URL
               (https://cache.example.org/gcroots/web1) or a local
               path inside the cache directory
               (/var/lib/nix-cache/gcroots/web1). The lock is taken
               at <gcroots>/.lock/<basename> next to it.
  STORE-PATH   The /nix/store path to write into the marker.
  CURL-OPT     Authentication flags passed to curl, e.g.
               --cert writer.pem --key writer.key --cacert ca.pem.
               Ignored for local markers.
  COMMAND      The publish command, typically `nix copy --to ... ...`.

Options:
  --bearer TOKEN   Send `Authorization: Bearer TOKEN` on every request
                   (OIDC vhost). Also exported to COMMAND as
                   $KISS_CACHE_TOKEN. The whole publish, including
                   COMMAND's own requests, must fit inside the token's
                   lifetime (5 min for GitHub Actions); neither nix nor
                   kiss-cache can refresh a token mid-publish.

The lock is taken before COMMAND, refreshed every 5 minutes while it
runs, and removed afterwards. If the lock cannot be taken the
publish does not run. See docs/pruner.md for the protocol.";

// ---------------------------------------------------------------------------------------------
// Arguments
// ---------------------------------------------------------------------------------------------
/// What is to be published, and how.
#[verifier::ext_equal]
pub struct ArgsView {
    pub marker: Seq<char>,
    pub store_path: Seq<char>,
    pub curl_opts: Seq<Seq<char>>,
    pub command: Seq<Seq<char>>,
    pub bearer: Option<Seq<char>>,
}

/// What the arguments ask for.
#[verifier::ext_equal]
pub enum RequestView {
    Help,
    Publish(ArgsView),
}

/// Where the flags at `i` end. There is no end where `--bearer` lacks its token.
pub open spec fn flags_end(args: Seq<Seq<char>>, i: int) -> Option<int>
    decreases args.len() - i,
{
    if 0 <= i < args.len() && args[i] == "--bearer"@ {
        if i + 1 < args.len() {
            flags_end(args, i + 2)
        } else {
            None
        }
    } else {
        Some(i)
    }
}

/// The token of the last flag before `end`.
pub open spec fn last_token(args: Seq<Seq<char>>, end: int) -> Option<Seq<char>> {
    if end > 0 {
        Some(args[end - 1])
    } else {
        None
    }
}

/// Where the first `--` at or after `i` stands.
pub open spec fn separator_from(args: Seq<Seq<char>>, i: int) -> Option<int>
    decreases args.len() - i,
{
    if i >= args.len() {
        None
    } else if args[i] == "--"@ {
        Some(i)
    } else {
        separator_from(args, i + 1)
    }
}

/// What is said where the token is missing.
pub open spec fn missing_token() -> Seq<char> {
    "--bearer needs a token\n\n"@ + USAGE@
}

/// What is said where the command is missing.
pub open spec fn missing_command() -> Seq<char> {
    "missing '-- COMMAND'\n\n"@ + USAGE@
}

/// What arguments ask for: first the flags, then the marker and the store path, then options for
/// curl up to the first `--`, then a command of at least one word.
pub open spec fn parsed_args(args: Seq<Seq<char>>) -> Result<RequestView, Seq<char>> {
    if args.len() > 0 && (args[0] == "-h"@ || args[0] == "--help"@) {
        Ok(RequestView::Help)
    } else {
        match flags_end(args, 0) {
            None => Err(missing_token()),
            Some(i) => if i + 1 >= args.len() {
                Err(USAGE@)
            } else {
                match separator_from(args, i + 2) {
                    Some(k) if k + 1 < args.len() => Ok(
                        RequestView::Publish(
                            ArgsView {
                                marker: args[i],
                                store_path: args[i + 1],
                                curl_opts: args.subrange(i + 2, k),
                                command: args.skip(k + 1),
                                bearer: last_token(args, i),
                            },
                        ),
                    ),
                    _ => Err(missing_command()),
                }
            },
        }
    }
}

/// What is to be published, and how.
#[derive(Debug)]
pub struct Args {
    marker: String,
    store_path: String,
    curl_opts: Vec<String>,
    command: Vec<String>,
    bearer: Option<String>,
}

impl View for Args {
    type V = ArgsView;

    closed spec fn view(&self) -> ArgsView {
        ArgsView {
            marker: self.marker@,
            store_path: self.store_path@,
            curl_opts: text::texts(self.curl_opts@),
            command: text::texts(self.command@),
            bearer: text::opt_text(self.bearer),
        }
    }
}

/// What the arguments ask for.
#[derive(Debug)]
pub enum Request {
    /// To print the usage.
    Help,
    /// To publish.
    Publish(Args),
}

impl View for Request {
    type V = RequestView;

    open spec fn view(&self) -> RequestView {
        match self {
            Request::Help => RequestView::Help,
            Request::Publish(args) => RequestView::Publish(args@),
        }
    }
}

/// Copies of the texts from `a` to `b`.
fn copy_texts(v: &[String], a: usize, b: usize) -> (r: Vec<String>)
    requires
        a <= b <= v@.len(),
    ensures
        text::texts(r@) == text::texts(v@).subrange(a as int, b as int),
{
    let mut out: Vec<String> = Vec::new();
    let mut i: usize = a;
    while i < b
        invariant
            a <= i <= b <= v@.len(),
            out@.len() == i - a,
            forall|k: int| 0 <= k < i - a ==> (#[trigger] out@[k])@ == v@[a + k]@,
        decreases b - i,
    {
        out.push(v[i].clone());
        i = i + 1;
    }
    assert(text::texts(out@) =~= text::texts(v@).subrange(a as int, b as int));
    out
}

/// Parses the arguments after the name of the command.
///
/// # Errors
///
/// The usage, after what is wrong with them where that is said, if arguments are missing or
/// malformed.
pub fn parse_args(args: &[String]) -> (r: Result<Request, String>)
    ensures
        match r {
            Ok(request) => parsed_args(text::texts(args@)) == Ok::<RequestView, Seq<char>>(
                request@,
            ),
            Err(e) => parsed_args(text::texts(args@)) == Err::<RequestView, Seq<char>>(e@),
        },
{
    let ghost all = text::texts(args@);
    assert(all.len() == args@.len());
    assert forall|k: int| 0 <= k < args@.len() implies all[k] == (#[trigger] args@[k])@ by {}
    if args.len() > 0 && (same_text(args[0].as_str(), "-h") || same_text(
        args[0].as_str(),
        "--help",
    )) {
        return Ok(Request::Help);
    }
    let mut i: usize = 0;
    let mut bearer: Option<String> = None;
    while i < args.len() && same_text(args[i].as_str(), "--bearer")
        invariant
            all == text::texts(args@),
            i <= args@.len(),
            all.len() > 0 ==> all[0] != "-h"@ && all[0] != "--help"@,
            flags_end(all, i as int) == flags_end(all, 0),
            text::opt_text(bearer) == last_token(all, i as int),
        decreases args@.len() - i,
    {
        if i + 1 >= args.len() {
            let mut e = "--bearer needs a token\n\n".to_owned();
            e.append(USAGE);
            return Err(e);
        }
        bearer = Some(args[i + 1].clone());
        i = i + 2;
    }
    let end: usize = args.len();
    if end - i < 2 {
        return Err(USAGE.to_owned());
    }
    let mut k: usize = i + 2;
    while k < args.len() && !same_text(args[k].as_str(), "--")
        invariant
            all == text::texts(args@),
            i + 2 <= k <= args@.len(),
            separator_from(all, k as int) == separator_from(all, i + 2),
        decreases args@.len() - k,
    {
        k = k + 1;
    }
    if k >= args.len() || k + 1 >= args.len() {
        let mut e = "missing '-- COMMAND'\n\n".to_owned();
        e.append(USAGE);
        return Err(e);
    }
    let r = Args {
        marker: args[i].clone(),
        store_path: args[i + 1].clone(),
        curl_opts: copy_texts(args, i + 2, k),
        command: copy_texts(args, k + 1, args.len()),
        bearer,
    };
    assert(all.subrange(k + 1, all.len() as int) =~= all.skip(k + 1));
    assert(parsed_args(all) == Ok::<RequestView, Seq<char>>(RequestView::Publish(r@)));
    Ok(Request::Publish(r))
}

impl Args {
    /// The marker.
    pub fn marker(&self) -> (r: &String)
        ensures
            r@ == self@.marker,
    {
        &self.marker
    }

    /// The store path to write into the marker.
    pub fn store_path(&self) -> (r: &String)
        ensures
            r@ == self@.store_path,
    {
        &self.store_path
    }

    /// The publish command.
    pub fn command(&self) -> (r: &Vec<String>)
        ensures
            text::texts(r@) == self@.command,
    {
        &self.command
    }

    /// How the command is run.
    pub fn launch(&self) -> (r: Launch)
        ensures
            r@ == launch_of(self@),
    {
        let words = copy_texts(self.command.as_slice(), 0, self.command.len());
        let mut env: Vec<(String, String)> = Vec::new();
        match &self.bearer {
            Some(token) => env.push((TOKEN_VARIABLE.to_owned(), token.clone())),
            None => {},
        }
        let r = Launch { words, env };
        assert(text::texts(self.command@).subrange(0, self.command@.len() as int) =~= text::texts(
            self.command@,
        ));
        assert(r@.env =~= launch_of(self@).env);
        r
    }

    /// The token that goes with every request.
    pub fn bearer(&self) -> (r: &Option<String>)
        ensures
            text::opt_text(*r) == self@.bearer,
    {
        &self.bearer
    }
}

// ---------------------------------------------------------------------------------------------
// Backends
// ---------------------------------------------------------------------------------------------
/// Where the last slash stands.
pub open spec fn last_slash(s: Seq<char>) -> Option<int>
    decreases s.len(),
{
    if s.len() == 0 {
        None
    } else if s.last() == '/' {
        Some(s.len() - 1)
    } else {
        last_slash(s.drop_last())
    }
}

/// The last name in a marker, after which the lock is named.
pub open spec fn job_of(marker: Seq<char>) -> Seq<char> {
    match last_slash(marker) {
        Some(i) => marker.skip(i + 1),
        None => marker,
    }
}

/// What comes before the last name in a marker.
pub open spec fn head_of(marker: Seq<char>) -> Seq<char> {
    match last_slash(marker) {
        Some(i) => marker.take(i),
        None => Seq::empty(),
    }
}

/// How the cache is reached.
#[verifier::ext_equal]
pub enum BackendView {
    Local { gcroots: Seq<u8> },
    Remote { base: Seq<char>, curl: Seq<Seq<char>> },
}

/// Whether a marker is a URL.
pub open spec fn is_url(marker: Seq<char>) -> bool {
    "http://"@.is_prefix_of(marker) || "https://"@.is_prefix_of(marker)
}

/// The options that go with every request.
pub open spec fn curl_base(args: ArgsView) -> Seq<Seq<char>> {
    let base = seq!["--fail"@, "--silent"@, "--show-error"@, "--max-time"@, CURL_TIMEOUT_SECS@];
    let auth = match args.bearer {
        Some(token) => seq!["-H"@, "Authorization: Bearer "@ + token],
        None => Seq::empty(),
    };
    base + auth + args.curl_opts
}

/// The backend for a marker: a URL is reached through curl, anything else is a path.
pub open spec fn backend_of(args: ArgsView) -> BackendView {
    if is_url(args.marker) {
        BackendView::Remote { base: head_of(args.marker), curl: curl_base(args) }
    } else {
        BackendView::Local {
            gcroots: match path::parent(encode_utf8(args.marker)) {
                Some(dir) => dir,
                None => Seq::empty(),
            },
        }
    }
}

/// Where the lock of a job is.
pub open spec fn lock_path_of(backend: BackendView, job: Seq<char>) -> Seq<char> {
    match backend {
        BackendView::Local { gcroots } => text::lossy(
            path::joined(lock::lock_dir_of(gcroots), encode_utf8(job)),
        ),
        BackendView::Remote { base, .. } => base + "/.lock/"@ + job,
    }
}

/// Something to do in the outside world.
#[verifier::ext_equal]
pub enum EffectView {
    /// Take the lock of this path in this directory, by the writer's side of the protocol.
    TakeLock { dir: Seq<u8>, lock: Seq<char> },
    /// Set the time of this lock file to now.
    TouchLock(Seq<char>),
    /// Remove this lock file.
    RemoveLock(Seq<char>),
    /// Write the contents to the temporary file, then rename it to the marker.
    PlaceMarker { temp: Seq<u8>, contents: Seq<char>, marker: Seq<char> },
    /// Run curl with these arguments.
    Curl(Seq<Seq<char>>),
}

/// How the lock is taken. A remote lock is retried while a prune runs.
pub open spec fn put_lock_effect(backend: BackendView, lock: Seq<char>) -> EffectView {
    match backend {
        BackendView::Local { gcroots } => EffectView::TakeLock {
            dir: lock::lock_dir_of(gcroots),
            lock,
        },
        BackendView::Remote { curl, .. } => EffectView::Curl(
            curl + seq![
                "--retry"@,
                "60"@,
                "--retry-delay"@,
                "5"@,
                "--retry-all-errors"@,
                "-X"@,
                "PUT"@,
                "--data"@,
                "shared"@,
                lock,
            ],
        ),
    }
}

/// How the lock is refreshed.
pub open spec fn refresh_effect(backend: BackendView, lock: Seq<char>) -> EffectView {
    match backend {
        BackendView::Local { .. } => EffectView::TouchLock(lock),
        BackendView::Remote { curl, .. } => EffectView::Curl(
            curl + seq!["-X"@, "PUT"@, "--data"@, "shared"@, lock],
        ),
    }
}

/// How the lock is released.
pub open spec fn del_lock_effect(backend: BackendView, lock: Seq<char>) -> EffectView {
    match backend {
        BackendView::Local { .. } => EffectView::RemoveLock(lock),
        BackendView::Remote { curl, .. } => EffectView::Curl(curl + seq!["-X"@, "DELETE"@, lock]),
    }
}

/// The bytes of `.tmp`.
pub open spec fn temp_suffix() -> Seq<u8> {
    seq![0x2eu8, 0x74, 0x6d, 0x70]
}

/// The name of the file that becomes the marker: a dot, the name of the marker, and `.tmp`.
pub open spec fn temp_name(marker: Seq<char>) -> Seq<u8> {
    let name = match path::file_name(encode_utf8(marker)) {
        Some(name) => name,
        None => Seq::empty(),
    };
    seq![path::DOT] + name + temp_suffix()
}

/// How the marker is written: a line with the store path. A local marker is first written to a
/// file whose name begins with a dot, which the search for roots skips, and then renamed.
pub open spec fn put_marker_effect(
    backend: BackendView,
    marker: Seq<char>,
    store_path: Seq<char>,
) -> EffectView {
    match backend {
        BackendView::Local { gcroots } => EffectView::PlaceMarker {
            temp: path::joined(gcroots, temp_name(marker)),
            contents: store_path.push('\n'),
            marker,
        },
        BackendView::Remote { curl, .. } => EffectView::Curl(
            curl + seq!["-X"@, "PUT"@, "--data-binary"@, store_path.push('\n'), marker],
        ),
    }
}

/// How the cache is reached.
#[derive(Debug)]
pub enum Backend {
    /// The marker is a file system path inside the cache directory.
    Local { gcroots: Vec<u8> },
    /// The marker is an HTTP(S) URL; lock and marker go through curl, so that they share the
    /// cache's authentication front.
    Remote { base: String, curl: Vec<String> },
}

impl View for Backend {
    type V = BackendView;

    open spec fn view(&self) -> BackendView {
        match self {
            Backend::Local { gcroots } => BackendView::Local { gcroots: gcroots@ },
            Backend::Remote { base, curl } => BackendView::Remote {
                base: base@,
                curl: text::texts(curl@),
            },
        }
    }
}

/// Something to do in the outside world.
#[derive(Debug)]
pub enum Effect {
    /// Take the lock of this path in this directory, by the writer's side of the protocol.
    TakeLock { dir: Vec<u8>, lock: String },
    /// Set the time of this lock file to now.
    TouchLock(String),
    /// Remove this lock file.
    RemoveLock(String),
    /// Write the contents to the temporary file, then rename it to the marker.
    PlaceMarker { temp: Vec<u8>, contents: String, marker: String },
    /// Run curl with these arguments.
    Curl(Vec<String>),
}

impl View for Effect {
    type V = EffectView;

    open spec fn view(&self) -> EffectView {
        match self {
            Effect::TakeLock { dir, lock } => EffectView::TakeLock { dir: dir@, lock: lock@ },
            Effect::TouchLock(lock) => EffectView::TouchLock(lock@),
            Effect::RemoveLock(lock) => EffectView::RemoveLock(lock@),
            Effect::PlaceMarker { temp, contents, marker } => EffectView::PlaceMarker {
                temp: temp@,
                contents: contents@,
                marker: marker@,
            },
            Effect::Curl(args) => EffectView::Curl(text::texts(args@)),
        }
    }
}

/// The last name in a marker, and what comes before it.
fn split_marker(marker: &str) -> (r: (String, String))
    ensures
        r.0@ == head_of(marker@),
        r.1@ == job_of(marker@),
{
    let chars = chars_of(marker);
    let mut n: usize = chars.len();
    assert(chars@.take(n as int) =~= marker@);
    while n > 0
        invariant
            chars@ == marker@,
            n <= chars@.len(),
            last_slash(chars@.take(n as int)) == last_slash(marker@),
        decreases n,
    {
        if chars[n - 1] == '/' {
            assert(last_slash(marker@) == Some(n - 1));
            let head = slice_subrange(chars.as_slice(), 0, n - 1);
            let job = slice_subrange(chars.as_slice(), n, chars.len());
            assert(head@ =~= marker@.take(n - 1));
            assert(job@ =~= marker@.skip(n as int));
            return (text_of(head), text_of(job));
        }
        assert(chars@.take(n as int).drop_last() =~= chars@.take(n - 1));
        n = n - 1;
    }
    (String::new(), marker.to_owned())
}

/// The last name in a marker, after which the lock is named.
pub fn job_name(marker: &str) -> (r: String)
    ensures
        r@ == job_of(marker@),
{
    split_marker(marker).1
}

/// Whether a text begins with another.
fn begins_with(s: &str, prefix: &str) -> (r: bool)
    ensures
        r == prefix@.is_prefix_of(s@),
{
    let s = chars_of(s);
    let prefix = chars_of(prefix);
    has_prefix(s.as_slice(), prefix.as_slice())
}

/// Appends a word to a list.
fn add_word(words: &mut Vec<String>, word: &str)
    ensures
        text::texts(final(words)@) == text::texts(old(words)@).push(word@),
{
    words.push(word.to_owned());
    assert(text::texts(words@) =~= text::texts(old(words)@).push(word@));
}

/// Appends all words of one list to another.
fn add_words(words: &mut Vec<String>, more: &Vec<String>)
    ensures
        text::texts(final(words)@) == text::texts(old(words)@) + text::texts(more@),
{
    let mut copy = copy_texts(more.as_slice(), 0, more.len());
    assert(text::texts(more@).subrange(0, more@.len() as int) =~= text::texts(more@));
    let ghost copied = copy@;
    words.append(&mut copy);
    assert(text::texts(words@) =~= text::texts(old(words)@) + text::texts(copied));
}

impl Backend {
    /// The backend for a marker.
    pub fn from_args(args: &Args) -> (r: Self)
        ensures
            r@ == backend_of(args@),
    {
        let marker = args.marker.as_str();
        if begins_with(marker, "http://") || begins_with(marker, "https://") {
            let mut curl: Vec<String> = Vec::new();
            assert(text::texts(curl@) =~= Seq::<Seq<char>>::empty());
            add_word(&mut curl, "--fail");
            add_word(&mut curl, "--silent");
            add_word(&mut curl, "--show-error");
            add_word(&mut curl, "--max-time");
            add_word(&mut curl, CURL_TIMEOUT_SECS);
            match &args.bearer {
                Some(token) => {
                    let mut header = "Authorization: Bearer ".to_owned();
                    header.append(token.as_str());
                    add_word(&mut curl, "-H");
                    add_word(&mut curl, header.as_str());
                },
                None => {},
            }
            add_words(&mut curl, &args.curl_opts);
            assert(text::texts(curl@) =~= curl_base(args@));
            Backend::Remote { base: split_marker(marker).0, curl }
        } else {
            let gcroots = match parent_dir(marker.as_bytes()) {
                Some(dir) => dir,
                None => Vec::new(),
            };
            assert(gcroots@ =~= backend_of(args@)->gcroots);
            Backend::Local { gcroots }
        }
    }

    /// Where the lock of a job is.
    pub fn lock_path(&self, job: &str) -> (r: String)
        ensures
            r@ == lock_path_of(self@, job@),
            self@ is Local && valid_utf8(self@->gcroots) ==> r@ == decode_utf8(
                path::joined(lock::lock_dir_of(self@->gcroots), encode_utf8(job@)),
            ),
    {
        match self {
            Backend::Local { gcroots } => {
                let dir = lock_dir(gcroots.as_slice());
                proof {
                    if valid_utf8(gcroots@) {
                        lemma_lock_path_is_text(gcroots@, job@);
                    }
                }
                lossy_text(join(dir.as_slice(), job.as_bytes()).as_slice())
            },
            Backend::Remote { base, .. } => {
                let mut out = base.clone();
                out.append("/.lock/");
                out.append(job);
                out
            },
        }
    }

    /// How the lock is taken. A local lock is taken in the lock directory itself; a remote one is
    /// put through curl, retrying while a prune runs.
    pub fn put_lock(&self, lock: &str) -> (r: Effect)
        ensures
            r@ == put_lock_effect(self@, lock@),
    {
        match self {
            Backend::Local { gcroots } => Effect::TakeLock {
                dir: lock_dir(gcroots.as_slice()),
                lock: lock.to_owned(),
            },
            Backend::Remote { curl, .. } => {
                let mut words = copy_texts(curl.as_slice(), 0, curl.len());
                add_word(&mut words, "--retry");
                add_word(&mut words, "60");
                add_word(&mut words, "--retry-delay");
                add_word(&mut words, "5");
                add_word(&mut words, "--retry-all-errors");
                add_word(&mut words, "-X");
                add_word(&mut words, "PUT");
                add_word(&mut words, "--data");
                add_word(&mut words, "shared");
                add_word(&mut words, lock);
                assert(Effect::Curl(words)@ =~~= put_lock_effect(self@, lock@));
                Effect::Curl(words)
            },
        }
    }

    /// How the lock is refreshed. A local lock gets a new time; a remote one is put again.
    pub fn refresh_lock(&self, lock: &str) -> (r: Effect)
        ensures
            r@ == refresh_effect(self@, lock@),
    {
        match self {
            Backend::Local { .. } => Effect::TouchLock(lock.to_owned()),
            Backend::Remote { curl, .. } => {
                let mut words = copy_texts(curl.as_slice(), 0, curl.len());
                add_word(&mut words, "-X");
                add_word(&mut words, "PUT");
                add_word(&mut words, "--data");
                add_word(&mut words, "shared");
                add_word(&mut words, lock);
                assert(Effect::Curl(words)@ =~~= refresh_effect(self@, lock@));
                Effect::Curl(words)
            },
        }
    }

    /// How the lock is released.
    pub fn del_lock(&self, lock: &str) -> (r: Effect)
        ensures
            r@ == del_lock_effect(self@, lock@),
    {
        match self {
            Backend::Local { .. } => Effect::RemoveLock(lock.to_owned()),
            Backend::Remote { curl, .. } => {
                let mut words = copy_texts(curl.as_slice(), 0, curl.len());
                add_word(&mut words, "-X");
                add_word(&mut words, "DELETE");
                add_word(&mut words, lock);
                assert(Effect::Curl(words)@ =~~= del_lock_effect(self@, lock@));
                Effect::Curl(words)
            },
        }
    }

    /// How the marker is written. A local marker is written to a hidden file and renamed; a remote
    /// one is put.
    pub fn put_marker(&self, marker: &str, store_path: &str) -> (r: Effect)
        ensures
            r@ == put_marker_effect(self@, marker@, store_path@),
    {
        let mut contents = store_path.to_owned();
        contents.push('\n');
        match self {
            Backend::Local { gcroots } => {
                let mut name: Vec<u8> = Vec::new();
                name.push(path::DOT);
                match last_name(marker.as_bytes()) {
                    Some(job) => append_run(&mut name, job),
                    None => {},
                }
                let suffix: [u8; 4] = [0x2e, 0x74, 0x6d, 0x70];
                assert(suffix@ =~= temp_suffix());
                append_run(&mut name, suffix.as_slice());
                assert(name@ =~= temp_name(marker@));
                Effect::PlaceMarker {
                    temp: join(gcroots.as_slice(), name.as_slice()),
                    contents,
                    marker: marker.to_owned(),
                }
            },
            Backend::Remote { curl, .. } => {
                let mut words = copy_texts(curl.as_slice(), 0, curl.len());
                add_word(&mut words, "-X");
                add_word(&mut words, "PUT");
                add_word(&mut words, "--data-binary");
                add_word(&mut words, contents.as_str());
                add_word(&mut words, marker);
                assert(Effect::Curl(words)@ =~~= put_marker_effect(self@, marker@, store_path@));
                Effect::Curl(words)
            },
        }
    }
}

// ---------------------------------------------------------------------------------------------
// The run
// ---------------------------------------------------------------------------------------------
/// The state of a publish.
#[verifier::ext_equal]
pub struct RunView {
    pub args: ArgsView,
    pub stage: PublishStage,
}

/// The publish command: its words, and what is added to its environment.
#[verifier::ext_equal]
pub struct LaunchView {
    pub words: Seq<Seq<char>>,
    pub env: Seq<(Seq<char>, Seq<char>)>,
}

/// The variable in which the command finds the token.
pub const TOKEN_VARIABLE: &'static str = "KISS_CACHE_TOKEN";

/// How the command is run: as it was given, with the token in its environment if there is one.
pub open spec fn launch_of(args: ArgsView) -> LaunchView {
    LaunchView {
        words: args.command,
        env: match args.bearer {
            Some(token) => seq![(TOKEN_VARIABLE@, token)],
            None => Seq::empty(),
        },
    }
}

/// What is to be done next, with everything that it takes.
#[verifier::ext_equal]
pub enum TaskView {
    TakeLock(EffectView),
    RunCommand { launch: LaunchView, refresh: EffectView },
    WriteMarker(EffectView),
    ReleaseLock(EffectView),
    Exit(u8),
}

/// Where the lock of a publish is. It is named after the marker, so that a later run overwrites
/// its own stale lock.
pub open spec fn run_lock(args: ArgsView) -> Seq<char> {
    lock_path_of(backend_of(args), job_of(args.marker))
}

/// What an action of a publish takes.
pub open spec fn task_of(args: ArgsView, action: PublishAction) -> TaskView {
    let backend = backend_of(args);
    match action {
        PublishAction::TakeLock => TaskView::TakeLock(put_lock_effect(backend, run_lock(args))),
        PublishAction::RunCommand => TaskView::RunCommand {
            launch: launch_of(args),
            refresh: refresh_effect(backend, run_lock(args)),
        },
        PublishAction::WriteMarker => TaskView::WriteMarker(
            put_marker_effect(backend, args.marker, args.store_path),
        ),
        PublishAction::ReleaseLock => TaskView::ReleaseLock(
            del_lock_effect(backend, run_lock(args)),
        ),
        PublishAction::Exit(code) => TaskView::Exit(code),
    }
}

/// The publish command: its words, and what is added to its environment.
#[derive(Debug)]
pub struct Launch {
    pub words: Vec<String>,
    pub env: Vec<(String, String)>,
}

impl View for Launch {
    type V = LaunchView;

    open spec fn view(&self) -> LaunchView {
        LaunchView {
            words: text::texts(self.words@),
            env: self.env@.map_values(|e: (String, String)| (e.0@, e.1@)),
        }
    }
}

/// What is to be done next, with everything that it takes.
#[derive(Debug)]
pub enum Task {
    /// Take the lock.
    TakeLock(Effect),
    /// Run the command, and refresh the lock in this way while it runs.
    RunCommand { launch: Launch, refresh: Effect },
    /// Write the marker.
    WriteMarker(Effect),
    /// Remove the lock.
    ReleaseLock(Effect),
    /// Exit with this code.
    Exit(u8),
}

impl View for Task {
    type V = TaskView;

    open spec fn view(&self) -> TaskView {
        match self {
            Task::TakeLock(effect) => TaskView::TakeLock(effect@),
            Task::RunCommand { launch, refresh } => TaskView::RunCommand {
                launch: launch@,
                refresh: refresh@,
            },
            Task::WriteMarker(effect) => TaskView::WriteMarker(effect@),
            Task::ReleaseLock(effect) => TaskView::ReleaseLock(effect@),
            Task::Exit(code) => TaskView::Exit(*code),
        }
    }
}

/// A publish under a cooperative lock.
#[derive(Debug)]
pub struct Run<'a> {
    args: &'a Args,
    backend: Backend,
    lock: String,
    stage: PublishStage,
}

impl<'a> View for Run<'a> {
    type V = RunView;

    closed spec fn view(&self) -> RunView {
        RunView { args: self.args@, stage: self.stage }
    }
}

/// Begins a publish: take the lock, refresh it, run the command, write the marker, release.
pub fn run<'a>(args: &'a Args) -> (r: Run<'a>)
    ensures
        r@ == (RunView { args: args@, stage: PublishStage::Locking }),
        r.wf(),
{
    let backend = Backend::from_args(args);
    let job = job_name(args.marker.as_str());
    let lock = backend.lock_path(job.as_str());
    Run { args, backend, lock, stage: PublishStage::Locking }
}

impl<'a> Run<'a> {
    /// The backend and the lock are those of the arguments.
    pub closed spec fn wf(&self) -> bool {
        self.backend@ == backend_of(self.args@) && self.lock@ == run_lock(self.args@)
    }

    /// Where the lock is.
    pub fn lock(&self) -> (r: &String)
        requires
            self.wf(),
        ensures
            r@ == run_lock(self@.args),
    {
        &self.lock
    }

    /// What an action takes.
    fn task(&self, action: PublishAction) -> (r: Task)
        requires
            self.wf(),
        ensures
            r@ == task_of(self@.args, action),
    {
        match action {
            PublishAction::TakeLock => Task::TakeLock(self.backend.put_lock(self.lock.as_str())),
            PublishAction::RunCommand => Task::RunCommand {
                launch: self.args.launch(),
                refresh: self.backend.refresh_lock(self.lock.as_str()),
            },
            PublishAction::WriteMarker => Task::WriteMarker(
                self.backend.put_marker(self.args.marker.as_str(), self.args.store_path.as_str()),
            ),
            PublishAction::ReleaseLock => Task::ReleaseLock(
                self.backend.del_lock(self.lock.as_str()),
            ),
            PublishAction::Exit(code) => Task::Exit(code),
        }
    }

    /// What is to be done first.
    pub fn first(&self) -> (r: Task)
        requires
            self.wf(),
        ensures
            r@ == task_of(self@.args, PublishAction::TakeLock),
    {
        self.task(PublishAction::TakeLock)
    }

    /// Takes what came of the last action into account and says what is to be done next.
    pub fn step(&mut self, event: PublishEvent) -> (r: Task)
        requires
            old(self).wf(),
        ensures
            final(self)@ == (RunView {
                stage: publish::publish_next(old(self)@.stage, event).0,
                ..old(self)@
            }),
            r@ == task_of(old(self)@.args, publish::publish_next(old(self)@.stage, event).1),
            final(self).wf(),
    {
        let (stage, action) = run_publish(self.stage, event);
        self.stage = stage;
        self.task(action)
    }
}

// ---------------------------------------------------------------------------------------------
// Laws
// ---------------------------------------------------------------------------------------------
proof fn lemma_joined_is_text(base: Seq<u8>, p: Seq<u8>)
    requires
        valid_utf8(base),
        valid_utf8(p),
    ensures
        valid_utf8(path::joined(base, p)),
{
    let slash = seq!['/'];
    is_ascii_chars_encode_utf8(slash);
    encode_utf8_valid_utf8(slash);
    assert(encode_utf8(slash) =~= seq![path::SLASH]);
    valid_utf8_concat(base, p);
    valid_utf8_concat(base, seq![path::SLASH]);
    assert(base + seq![path::SLASH] =~= base.push(path::SLASH));
    valid_utf8_concat(base.push(path::SLASH), p);
}

proof fn lemma_lock_path_is_text(gcroots: Seq<u8>, job: Seq<char>)
    requires
        valid_utf8(gcroots),
    ensures
        valid_utf8(path::joined(lock::lock_dir_of(gcroots), encode_utf8(job))),
{
    encode_utf8_valid_utf8(lock::LOCK_DIR@);
    encode_utf8_valid_utf8(job);
    lemma_joined_is_text(gcroots, encode_utf8(lock::LOCK_DIR@));
    lemma_joined_is_text(lock::lock_dir_of(gcroots), encode_utf8(job));
}

/// The directory of a local marker is text, so that the path of its lock can be written down
/// without loss.
pub proof fn a_local_lock_path_is_exact(args: ArgsView)
    ensures
        backend_of(args) matches BackendView::Local { gcroots } ==> valid_utf8(gcroots),
{
    let marker = encode_utf8(args.marker);
    encode_utf8_valid_utf8(args.marker);
    encode_utf8_valid_utf8(Seq::<char>::empty());
    is_ascii_chars_encode_utf8(Seq::<char>::empty());
    assert(encode_utf8(Seq::<char>::empty()) =~= Seq::<u8>::empty());
    let slash = seq!['/'];
    is_ascii_chars_encode_utf8(slash);
    encode_utf8_valid_utf8(slash);
    assert(encode_utf8(slash) =~= seq![path::SLASH]);
    if let Some(dir) = path::parent(marker) {
        let cs = path::component_spans(marker);
        if cs.len() == 1 {
            if path::is_absolute(marker) {
                assert(dir =~= seq![path::SLASH]);
            } else {
                assert(dir =~= Seq::<u8>::empty());
            }
        } else {
            let end = cs[cs.len() - 2].1;
            path::lemma_component_ends(marker, cs.len() - 2);
            assert(dir =~= marker.subrange(0, end));
            if end == marker.len() {
                assert(dir =~= marker);
            } else {
                is_char_boundary_iff_not_is_continuation_byte(marker, end);
                assert(!is_continuation_byte(0x2fu8)) by (bit_vector);
                valid_utf8_split(marker, end);
            }
        }
    }
}

/// The file that a local marker is written to before it gets its name is one that the search for
/// roots skips.
pub proof fn an_unfinished_marker_is_no_root(gcroots: Seq<u8>, marker: Seq<char>, depth: nat)
    requires
        depth > 0,
    ensures
        path::file_name(path::joined(gcroots, temp_name(marker))) == Some(temp_name(marker)),
        gcroots::is_skipped(depth, temp_name(marker)),
{
    let bytes = encode_utf8(marker);
    let name = temp_name(marker);
    path::lemma_component_names(bytes);
    let cs = path::components(bytes);
    if name.contains(path::SLASH) {
        let i = choose|i: int| 0 <= i < name.len() && name[i] == path::SLASH;
        let end = name.len() - 4;
        if i >= end {
            assert(name[i] == temp_suffix()[i - end]);
        } else if i > 0 {
            let c = cs[cs.len() - 1];
            assert(name[i] == c[i - 1]);
            assert(c.contains(c[i - 1]));
        }
    }
    path::lemma_joined_name(gcroots, name);
}

/// A local marker holds its old contents or all of the new ones, never a part of them. While they
/// are written, however much of them has been, the marker is as it was: what is written is another
/// file, whose name begins with a dot. Once that file is renamed, the marker holds the store path
/// and the end of the line, the other file is gone, and nothing else has changed.
pub proof fn a_marker_is_replaced_as_a_whole(
    args: ArgsView,
    files: Map<Seq<u8>, Seq<u8>>,
    part: Seq<u8>,
    other: Seq<u8>,
)
    requires
        !is_url(args.marker),
    ensures
        put_marker_effect(backend_of(args), args.marker, args.store_path) matches
            EffectView::PlaceMarker { temp, contents, marker } && {
            let target = encode_utf8(args.marker);
            let during = path::files_written(files, temp, part);
            let whole = encode_utf8(args.store_path.push('\n'));
            let after = path::files_renamed(
                path::files_written(files, temp, encode_utf8(contents)),
                temp,
                encode_utf8(marker),
            );
            &&& path::file_name(temp) matches Some(name) && name[0] == path::DOT
            &&& during.contains_key(target) == files.contains_key(target)
            &&& during[target] == files[target]
            &&& after.contains_key(target) && after[target] == whole
            &&& !after.contains_key(temp)
            &&& other != temp && other != target ==> after.contains_key(other)
                == files.contains_key(other) && after[other] == files[other]
        },
{
    let gcroots = backend_of(args)->gcroots;
    let temp = path::joined(gcroots, temp_name(args.marker));
    an_unfinished_marker_is_no_root(gcroots, args.marker, 1);
    if temp == encode_utf8(args.marker) {
        let name = path::file_name(temp)->0;
        assert(name.len() == temp_name(args.marker).len());
    }
}

/// Every request to a remote cache goes out under the options that all of them share: it fails on
/// errors, it is bounded in time, and it carries the token.
pub proof fn every_request_carries_the_shared_options(
    args: ArgsView,
    lock: Seq<char>,
    effect: EffectView,
)
    requires
        is_url(args.marker),
        effect == put_lock_effect(backend_of(args), lock) || effect == refresh_effect(
            backend_of(args),
            lock,
        ) || effect == del_lock_effect(backend_of(args), lock) || effect == put_marker_effect(
            backend_of(args),
            args.marker,
            args.store_path,
        ),
    ensures
        effect matches EffectView::Curl(words) && curl_base(args).is_prefix_of(words),
{
    let words = effect->Curl_0;
    let base = curl_base(args);
    assert(words.subrange(0, base.len() as int) =~= base);
}

/// No argument is lost: what follows the flags is the marker, the store path, the options for
/// curl, the separator and the command, and the command is not empty.
pub proof fn arguments_are_split_in_order(args: Seq<Seq<char>>)
    ensures
        parsed_args(args) matches Ok(RequestView::Publish(a)) ==> {
            let i = flags_end(args, 0)->0;
            &&& args.skip(i) == seq![a.marker, a.store_path] + a.curl_opts + seq!["--"@] + a.command
            &&& a.command.len() > 0
            &&& !a.curl_opts.contains("--"@)
        },
{
    if parsed_args(args) is Ok {
        if let RequestView::Publish(a) = parsed_args(args)->Ok_0 {
            let i = flags_end(args, 0)->0;
            lemma_flags_end(args, 0);
            lemma_separator(args, i + 2);
            let k = separator_from(args, i + 2)->0;
            assert(args.skip(i) =~= seq![a.marker, a.store_path] + a.curl_opts + seq!["--"@]
                + a.command);
            if a.curl_opts.contains("--"@) {
                let j = choose|j: int| 0 <= j < a.curl_opts.len() && a.curl_opts[j] == "--"@;
                assert(args[i + 2 + j] == "--"@);
            }
        }
    }
}

proof fn lemma_flags_end(args: Seq<Seq<char>>, i: int)
    requires
        0 <= i <= args.len(),
    ensures
        flags_end(args, i) matches Some(end) ==> i <= end <= args.len(),
    decreases args.len() - i,
{
    if i < args.len() && args[i] == "--bearer"@ && i + 1 < args.len() {
        lemma_flags_end(args, i + 2);
    }
}

proof fn lemma_separator(args: Seq<Seq<char>>, i: int)
    ensures
        separator_from(args, i) matches Some(k) ==> i <= k < args.len() && args[k] == "--"@ && (
        forall|j: int| i <= j < k ==> #[trigger] args[j] != "--"@),
    decreases args.len() - i,
{
    if i < args.len() && args[i] != "--"@ {
        lemma_separator(args, i + 1);
    }
}

/// What a publish writes into its marker makes the store path a root: it is found again by the
/// search for roots.
pub proof fn a_published_store_path_is_a_root(
    args: ArgsView,
    st: gcroots::RootsState,
    file: Seq<u8>,
    marker: Vec<u8>,
)
    requires
        marker@ == encode_utf8(args.store_path.push('\n')),
        store_hash::store_path_hash(encode_utf8(args.store_path)) is Some,
    ensures
        match put_marker_effect(backend_of(args), args.marker, args.store_path) {
            EffectView::PlaceMarker { contents, .. } => encode_utf8(contents) == marker@,
            EffectView::Curl(words) => words.contains(args.store_path.push('\n')),
            _ => false,
        },
        gcroots::root_hashes_of(
            gcroots::with_entry(st, file, gcroots::Entry::File(marker)).store_paths,
        ).contains(store_hash::store_path_hash(encode_utf8(args.store_path))->0),
{
    let end = seq!['\n'];
    is_ascii_chars_encode_utf8(end);
    assert(encode_utf8(end) =~= seq![0x0au8]);
    text::lemma_encode_concat(args.store_path, end);
    assert(args.store_path + end =~= args.store_path.push('\n'));
    assert(marker@ =~= encode_utf8(args.store_path).push(0x0a));
    gcroots::a_marker_makes_its_store_path_a_root(st, file, marker, encode_utf8(args.store_path));
    if is_url(args.marker) {
        let words = put_marker_effect(backend_of(args), args.marker, args.store_path)->Curl_0;
        assert(words[curl_base(args).len() as int + 3] == args.store_path.push('\n'));
    }
}

/// Whoever publishes under the same marker again uses the same lock, so that a stale lock of a
/// crashed run is overwritten.
pub proof fn a_later_run_has_the_same_lock(args: ArgsView, later: ArgsView)
    requires
        args.marker == later.marker,
    ensures
        run_lock(args) == run_lock(later),
{
}

/// Tokens, each behind its flag.
pub open spec fn bearer_flags(tokens: Seq<Seq<char>>) -> Seq<Seq<char>> {
    Seq::new(
        2 * tokens.len(),
        |i: int|
            if i % 2 == 0 {
                "--bearer"@
            } else {
                tokens[i / 2]
            },
    )
}

proof fn lemma_flags_are_passed(args: Seq<Seq<char>>, tokens: Seq<Seq<char>>, k: nat)
    requires
        k <= tokens.len(),
        bearer_flags(tokens).is_prefix_of(args),
    ensures
        flags_end(args, 2 * k as int) == flags_end(args, 2 * tokens.len() as int),
        tokens.len() > 0 ==> args[2 * tokens.len() as int - 1] == tokens.last(),
    decreases tokens.len() - k,
{
    let flags = bearer_flags(tokens);
    let n = 2 * tokens.len() as int;
    assert(args.subrange(0, n) == flags);
    if tokens.len() > 0 {
        assert(args[n - 1] == flags[n - 1]);
        assert((n - 1) / 2 == tokens.len() - 1);
    }
    if k < tokens.len() {
        let i = 2 * k as int;
        assert(args[i] == flags[i]);
        assert(args[i] == "--bearer"@);
        lemma_flags_are_passed(args, tokens, k + 1);
    }
}

proof fn lemma_separator_is_found(args: Seq<Seq<char>>, i: int, k: int)
    requires
        0 <= i <= k <= args.len(),
        k < args.len() ==> args[k] == "--"@,
        forall|j: int| i <= j < k ==> #[trigger] args[j] != "--"@,
    ensures
        separator_from(args, i) == (if k < args.len() {
            Some(k)
        } else {
            None::<int>
        }),
    decreases k - i,
{
    if i < k {
        lemma_separator_is_found(args, i + 1, k);
    }
}

proof fn lemma_flag_is_no_help()
    ensures
        "--bearer"@ != "-h"@,
        "--bearer"@ != "--help"@,
{
    reveal_strlit("--bearer");
    reveal_strlit("-h");
    reveal_strlit("--help");
    assert("--bearer"@.len() == 8);
    assert("-h"@.len() == 2);
    assert("--help"@.len() == 6);
}

proof fn lemma_after_flags(args: Seq<Seq<char>>, tokens: Seq<Seq<char>>, rest: Seq<Seq<char>>)
    requires
        args == bearer_flags(tokens) + rest,
        rest.len() > 0 ==> rest[0] != "--bearer"@ && (tokens.len() == 0 ==> rest[0] != "-h"@
            && rest[0] != "--help"@),
    ensures
        flags_end(args, 0) == Some(2 * tokens.len() as int),
        last_token(args, 2 * tokens.len() as int) == (if tokens.len() > 0 {
            Some(tokens.last())
        } else {
            None::<Seq<char>>
        }),
        args.len() > 0 ==> args[0] != "-h"@ && args[0] != "--help"@,
        forall|j: int| 0 <= j < rest.len() ==> args[2 * tokens.len() as int + j] == #[trigger] rest[j],
{
    let flags = bearer_flags(tokens);
    let n = 2 * tokens.len() as int;
    assert(args.subrange(0, n) =~= flags);
    assert(flags.is_prefix_of(args));
    lemma_flags_are_passed(args, tokens, 0);
    lemma_flag_is_no_help();
    if rest.len() > 0 {
        assert(args[n] == rest[0]);
    }
    if tokens.len() > 0 {
        assert(args[0] == flags[0]);
    }
}

/// Arguments are taken as they are given: any number of tokens, of which the last counts, then the
/// marker and the store path, then any options for curl, and the command behind the first `--`.
pub proof fn arguments_are_taken_as_they_are_given(
    tokens: Seq<Seq<char>>,
    marker: Seq<char>,
    store_path: Seq<char>,
    opts: Seq<Seq<char>>,
    command: Seq<Seq<char>>,
)
    requires
        marker != "--bearer"@,
        tokens.len() == 0 ==> marker != "-h"@ && marker != "--help"@,
        !opts.contains("--"@),
        command.len() > 0,
    ensures
        parsed_args(
            bearer_flags(tokens) + (seq![marker, store_path] + opts + seq!["--"@] + command),
        ) == Ok::<RequestView, Seq<char>>(
            RequestView::Publish(
                ArgsView {
                    marker,
                    store_path,
                    curl_opts: opts,
                    command,
                    bearer: if tokens.len() > 0 {
                        Some(tokens.last())
                    } else {
                        None
                    },
                },
            ),
        ),
{
    let rest = seq![marker, store_path] + opts + seq!["--"@] + command;
    let args = bearer_flags(tokens) + rest;
    let n = 2 * tokens.len() as int;
    lemma_after_flags(args, tokens, rest);
    let k = n + 2 + opts.len();
    assert forall|j: int| n + 2 <= j < k implies #[trigger] args[j] != "--"@ by {
        assert(args[j] == rest[j - n]);
        assert(rest[j - n] == opts[j - n - 2]);
        assert(opts.contains(opts[j - n - 2]));
    }
    assert(args[k] == rest[k - n]);
    lemma_separator_is_found(args, n + 2, k);
    assert(args[n] == rest[0] && args[n + 1] == rest[1]);
    assert(args.subrange(n + 2, k) =~= opts) by {
        assert forall|j: int| 0 <= j < opts.len() implies args.subrange(n + 2, k)[j] == opts[j] by {
            assert(args[n + 2 + j] == rest[2 + j]);
        }
    }
    assert(args.skip(k + 1) =~= command) by {
        assert forall|j: int| 0 <= j < command.len() implies args.skip(k + 1)[j] == command[j] by {
            assert(args[k + 1 + j] == rest[k + 1 + j - n]);
        }
    }
}

/// Where arguments are missing, the usage is told: where the token of the last flag is, where the
/// marker or the store path is, and where the command is. Where help is asked for first, it is
/// given, whatever follows.
pub proof fn missing_arguments_are_told(
    tokens: Seq<Seq<char>>,
    marker: Seq<char>,
    store_path: Seq<char>,
    opts: Seq<Seq<char>>,
)
    requires
        marker != "--bearer"@,
        tokens.len() == 0 ==> marker != "-h"@ && marker != "--help"@,
        !opts.contains("--"@),
    ensures
        parsed_args(bearer_flags(tokens) + seq!["--bearer"@]) == Err::<RequestView, Seq<char>>(
            "--bearer needs a token\n\n"@ + USAGE@,
        ),
        parsed_args(bearer_flags(tokens)) == Err::<RequestView, Seq<char>>(USAGE@),
        parsed_args(bearer_flags(tokens) + seq![marker]) == Err::<RequestView, Seq<char>>(USAGE@),
        parsed_args(bearer_flags(tokens) + (seq![marker, store_path] + opts)) == Err::<
            RequestView,
            Seq<char>,
        >("missing '-- COMMAND'\n\n"@ + USAGE@),
        parsed_args(bearer_flags(tokens) + (seq![marker, store_path] + opts + seq!["--"@]))
            == Err::<RequestView, Seq<char>>("missing '-- COMMAND'\n\n"@ + USAGE@),
        parsed_args(seq!["-h"@] + opts) == Ok::<RequestView, Seq<char>>(RequestView::Help),
        parsed_args(seq!["--help"@] + opts) == Ok::<RequestView, Seq<char>>(RequestView::Help),
{
    let flags = bearer_flags(tokens);
    let none = Seq::<Seq<char>>::empty();
    assert(flags + none =~= flags);
    lemma_after_flags(flags, tokens, none);
    lemma_after_flags(flags + seq![marker], tokens, seq![marker]);
    lemma_missing_token(tokens);
    lemma_missing_command(tokens, marker, store_path, opts);
}

proof fn lemma_missing_token(tokens: Seq<Seq<char>>)
    ensures
        parsed_args(bearer_flags(tokens) + seq!["--bearer"@]) == Err::<RequestView, Seq<char>>(
            "--bearer needs a token\n\n"@ + USAGE@,
        ),
{
    let flags = bearer_flags(tokens);
    let n = 2 * tokens.len() as int;
    let args = flags + seq!["--bearer"@];
    assert(args.subrange(0, n) =~= flags);
    assert(flags.is_prefix_of(args));
    lemma_flags_are_passed(args, tokens, 0);
    lemma_flag_is_no_help();
    assert(args[n] == "--bearer"@);
    if tokens.len() > 0 {
        assert(args[0] == flags[0]);
    }
}

proof fn lemma_missing_command(
    tokens: Seq<Seq<char>>,
    marker: Seq<char>,
    store_path: Seq<char>,
    opts: Seq<Seq<char>>,
)
    requires
        marker != "--bearer"@,
        tokens.len() == 0 ==> marker != "-h"@ && marker != "--help"@,
        !opts.contains("--"@),
    ensures
        parsed_args(bearer_flags(tokens) + (seq![marker, store_path] + opts)) == Err::<
            RequestView,
            Seq<char>,
        >("missing '-- COMMAND'\n\n"@ + USAGE@),
        parsed_args(bearer_flags(tokens) + (seq![marker, store_path] + opts + seq!["--"@]))
            == Err::<RequestView, Seq<char>>("missing '-- COMMAND'\n\n"@ + USAGE@),
{
    let flags = bearer_flags(tokens);
    let n = 2 * tokens.len() as int;
    let (a, b) = (seq![marker, store_path] + opts, seq![marker, store_path] + opts + seq!["--"@]);
    let (x, y) = (flags + a, flags + b);
    lemma_after_flags(x, tokens, a);
    lemma_after_flags(y, tokens, b);
    let k = n + 2 + opts.len();
    assert forall|j: int| n + 2 <= j < k implies #[trigger] x[j] != "--"@ by {
        assert(x[j] == a[j - n]);
        assert(opts.contains(opts[j - n - 2]));
    }
    assert forall|j: int| n + 2 <= j < k implies #[trigger] y[j] != "--"@ by {
        assert(y[j] == b[j - n]);
        assert(opts.contains(opts[j - n - 2]));
    }
    assert(y[k] == b[k - n]);
    lemma_separator_is_found(x, n + 2, k);
    lemma_separator_is_found(y, n + 2, k);
}

/// The command is run as it was given, and finds the token in its environment, whatever the marker:
/// exactly the variable `KISS_CACHE_TOKEN`, with the token that counts; and nothing where there is
/// no token.
pub proof fn the_command_finds_the_token(
    args: ArgsView,
    tokens: Seq<Seq<char>>,
    marker: Seq<char>,
    store_path: Seq<char>,
    opts: Seq<Seq<char>>,
    command: Seq<Seq<char>>,
)
    requires
        marker != "--bearer"@,
        tokens.len() == 0 ==> marker != "-h"@ && marker != "--help"@,
        !opts.contains("--"@),
        command.len() > 0,
    ensures
        parsed_args(
            bearer_flags(tokens) + (seq![marker, store_path] + opts + seq!["--"@] + command),
        ) == Ok::<RequestView, Seq<char>>(RequestView::Publish(args)) ==> {
            &&& task_of(args, PublishAction::RunCommand) is RunCommand
            &&& task_of(args, PublishAction::RunCommand)->launch.words == command
            &&& task_of(args, PublishAction::RunCommand)->launch.env == (if tokens.len() > 0 {
                seq![("KISS_CACHE_TOKEN"@, tokens.last())]
            } else {
                Seq::empty()
            })
        },
        launch_of(args).words == args.command,
        args.bearer matches Some(t) ==> launch_of(args).env == seq![("KISS_CACHE_TOKEN"@, t)],
        args.bearer is None ==> launch_of(args).env.len() == 0,
{
    arguments_are_taken_as_they_are_given(tokens, marker, store_path, opts, command);
}

proof fn lemma_last_slash(s: Seq<char>, job: Seq<char>)
    requires
        !job.contains('/'),
    ensures
        last_slash(s + job) == last_slash(s),
    decreases job.len(),
{
    if job.len() == 0 {
        assert(s + job =~= s);
    } else {
        let shorter = job.drop_last();
        assert(job.contains(job[job.len() - 1]));
        if shorter.contains('/') {
            let i = choose|i: int| 0 <= i < shorter.len() && shorter[i] == '/';
            assert(job[i] == '/');
        }
        lemma_last_slash(s, shorter);
        assert((s + job).drop_last() =~= s + shorter);
    }
}

/// A job is what stands behind the last slash of a marker, and what stands before that slash is
/// where it is kept. A marker without a slash is the job.
pub proof fn a_job_stands_behind_the_last_slash(dir: Seq<char>, job: Seq<char>)
    requires
        !job.contains('/'),
    ensures
        job_of(dir.push('/') + job) == job,
        head_of(dir.push('/') + job) == dir,
        job_of(job) == job,
        head_of(job).len() == 0,
{
    let m = dir.push('/') + job;
    lemma_last_slash(dir.push('/'), job);
    lemma_last_slash(Seq::<char>::empty(), job);
    assert(Seq::<char>::empty() + job =~= job);
    assert(m.skip(dir.len() as int + 1) =~= job);
    assert(m.take(dir.len() as int) =~= dir);
}

/// A marker is a URL exactly where it begins with `http://` or `https://`, whatever follows.
pub proof fn a_url_is_known_by_its_beginning(marker: Seq<char>, rest: Seq<char>)
    ensures
        is_url("http://"@ + rest),
        is_url("https://"@ + rest),
        is_url(marker) ==> (exists|r: Seq<char>| marker == #[trigger] ("http://"@ + r)) || (exists|
            r: Seq<char>,
        | marker == #[trigger] ("https://"@ + r)),
{
    let (a, b) = ("http://"@, "https://"@);
    assert((a + rest).subrange(0, a.len() as int) =~= a);
    assert((b + rest).subrange(0, b.len() as int) =~= b);
    if a.is_prefix_of(marker) {
        assert(marker =~= a + marker.skip(a.len() as int));
    }
    if b.is_prefix_of(marker) {
        assert(marker =~= b + marker.skip(b.len() as int));
    }
}

/// The lock of a publish lies in `.lock` next to its marker, and is named after it.
pub proof fn a_lock_lies_next_to_its_marker(args: ArgsView, dir: Seq<char>, job: Seq<char>)
    requires
        !job.contains('/'),
        args.marker == dir.push('/') + job,
    ensures
        is_url(args.marker) ==> run_lock(args) == dir + "/.lock/"@ + job && backend_of(args)
            is Remote && backend_of(args)->base == dir,
        !is_url(args.marker) ==> {
            let beside = match path::parent(encode_utf8(args.marker)) {
                Some(p) => p,
                None => Seq::empty(),
            };
            &&& backend_of(args) == (BackendView::Local { gcroots: beside })
            &&& run_lock(args) == text::lossy(
                path::joined(path::joined(beside, encode_utf8(".lock"@)), encode_utf8(job)),
            )
        },
{
    a_job_stands_behind_the_last_slash(dir, job);
}

/// Every request to a remote cache fails on errors, is quiet but for those, and is bounded to 30
/// seconds; it carries the token in its header, where there is one, and then all options that were
/// given for curl, in order.
pub proof fn every_request_is_bounded_and_carries_the_token(args: ArgsView)
    ensures
        ({
            let fixed = seq!["--fail"@, "--silent"@, "--show-error"@, "--max-time"@, "30"@];
            let n = curl_base(args).len() - args.curl_opts.len();
            &&& fixed.is_prefix_of(curl_base(args))
            &&& args.curl_opts.is_suffix_of(curl_base(args))
            &&& args.bearer is None ==> n == 5
            &&& args.bearer matches Some(t) ==> {
                &&& n == 7
                &&& curl_base(args)[5] == "-H"@
                &&& curl_base(args)[6] == "Authorization: Bearer "@ + t
            }
        }),
        is_url(args.marker) ==> backend_of(args) is Remote && backend_of(args)->curl == curl_base(
            args,
        ),
        !is_url(args.marker) ==> backend_of(args) is Local,
{
    let fixed = seq!["--fail"@, "--silent"@, "--show-error"@, "--max-time"@, "30"@];
    let base = curl_base(args);
    assert(base.subrange(0, 5) =~= fixed);
    assert(base.subrange(base.len() - args.curl_opts.len(), base.len() as int) =~= args.curl_opts);
}

/// What goes out to a remote cache: a lock is put at its own URL, again and again while it is
/// refused, refreshed by being put there once more, and deleted there; and the marker is put at its
/// own URL with the store path and the end of the line.
pub proof fn requests_go_to_the_lock_and_to_the_marker(
    backend: BackendView,
    lock: Seq<char>,
    marker: Seq<char>,
    store_path: Seq<char>,
)
    requires
        backend is Remote,
    ensures
        ({
            let curl = backend->curl;
            &&& put_lock_effect(backend, lock) matches EffectView::Curl(w) && curl.is_prefix_of(w)
                && w.len() == curl.len() + 10 && seq![
                "--retry"@,
                "60"@,
                "--retry-delay"@,
                "5"@,
                "--retry-all-errors"@,
                "-X"@,
                "PUT"@,
                "--data"@,
                "shared"@,
                lock,
            ].is_suffix_of(w)
            &&& refresh_effect(backend, lock) matches EffectView::Curl(w) && curl.is_prefix_of(w)
                && w.len() == curl.len() + 5 && seq![
                "-X"@,
                "PUT"@,
                "--data"@,
                "shared"@,
                lock,
            ].is_suffix_of(w)
            &&& del_lock_effect(backend, lock) matches EffectView::Curl(w) && curl.is_prefix_of(w)
                && w.len() == curl.len() + 3 && seq!["-X"@, "DELETE"@, lock].is_suffix_of(w)
            &&& put_marker_effect(backend, marker, store_path) matches EffectView::Curl(w)
                && curl.is_prefix_of(w) && w.len() == curl.len() + 5 && seq![
                "-X"@,
                "PUT"@,
                "--data-binary"@,
                store_path + seq!['\n'],
                marker,
            ].is_suffix_of(w)
        }),
{
    let curl = backend->curl;
    let n = curl.len() as int;
    let a = put_lock_effect(backend, lock)->Curl_0;
    let b = refresh_effect(backend, lock)->Curl_0;
    let c = del_lock_effect(backend, lock)->Curl_0;
    let d = put_marker_effect(backend, marker, store_path)->Curl_0;
    assert(a.subrange(0, n) =~= curl);
    assert(b.subrange(0, n) =~= curl);
    assert(c.subrange(0, n) =~= curl);
    assert(d.subrange(0, n) =~= curl);
    assert(store_path + seq!['\n'] =~= store_path.push('\n'));
    assert(a.subrange(n, a.len() as int) =~= seq![
        "--retry"@,
        "60"@,
        "--retry-delay"@,
        "5"@,
        "--retry-all-errors"@,
        "-X"@,
        "PUT"@,
        "--data"@,
        "shared"@,
        lock,
    ]);
    assert(b.subrange(n, b.len() as int) =~= seq!["-X"@, "PUT"@, "--data"@, "shared"@, lock]);
    assert(c.subrange(n, c.len() as int) =~= seq!["-X"@, "DELETE"@, lock]);
    assert(d.subrange(n, d.len() as int) =~= seq![
        "-X"@,
        "PUT"@,
        "--data-binary"@,
        store_path + seq!['\n'],
        marker,
    ]);
}

/// In the file system, the lock that is named is the one that is taken, in the directory of locks,
/// and refreshed, and removed; and the marker that is named takes the place of a file next to it,
/// whose name is that of the marker between a dot and `.tmp`.
pub proof fn local_files_are_the_ones_that_are_named(
    gcroots: Seq<u8>,
    lock: Seq<char>,
    marker: Seq<char>,
    store_path: Seq<char>,
)
    ensures
        ({
            let backend = BackendView::Local { gcroots };
            &&& put_lock_effect(backend, lock) == (EffectView::TakeLock {
                dir: path::joined(gcroots, encode_utf8(".lock"@)),
                lock,
            })
            &&& refresh_effect(backend, lock) == EffectView::TouchLock(lock)
            &&& del_lock_effect(backend, lock) == EffectView::RemoveLock(lock)
            &&& put_marker_effect(backend, marker, store_path) matches EffectView::PlaceMarker {
                temp,
                contents,
                marker: target,
            } && target == marker && contents == store_path + seq!['\n'] && (path::file_name(
                encode_utf8(marker),
            ) matches Some(name) ==> temp == path::joined(
                gcroots,
                encode_utf8("."@) + name + encode_utf8(".tmp"@),
            ))
        }),
{
    reveal_strlit(".");
    reveal_strlit(".tmp");
    is_ascii_chars_encode_utf8("."@);
    is_ascii_chars_encode_utf8(".tmp"@);
    assert(encode_utf8("."@) =~= seq![path::DOT]);
    assert(encode_utf8(".tmp"@) =~= temp_suffix());
    assert(store_path + seq!['\n'] =~= store_path.push('\n'));
}

/// A publish keeps to one lock, from when it is taken until it is removed, and writes the store path
/// that it was given to the marker that it was given.
pub proof fn a_publish_keeps_to_one_lock(args: ArgsView, code: u8)
    ensures
        ({
            let backend = backend_of(args);
            let lock = run_lock(args);
            &&& task_of(args, PublishAction::TakeLock) == TaskView::TakeLock(
                put_lock_effect(backend, lock),
            )
            &&& task_of(args, PublishAction::RunCommand) matches TaskView::RunCommand {
                launch,
                refresh,
            } && refresh == refresh_effect(backend, lock)
            &&& task_of(args, PublishAction::ReleaseLock) == TaskView::ReleaseLock(
                del_lock_effect(backend, lock),
            )
            &&& task_of(args, PublishAction::WriteMarker) == TaskView::WriteMarker(
                put_marker_effect(backend, args.marker, args.store_path),
            )
            &&& task_of(args, PublishAction::Exit(code)) == TaskView::Exit(code)
        }),
{
}

/// The lock of a marker that is a bare name lies in the lock directory of where the run was started.
pub proof fn a_bare_marker_has_its_lock_here(args: ArgsView)
    requires
        !args.marker.contains('/'),
    ensures
        !is_url(args.marker),
        job_of(args.marker) == args.marker,
        ({
            let beside = match path::parent(encode_utf8(args.marker)) {
                Some(p) => p,
                None => Seq::empty(),
            };
            &&& backend_of(args) == (BackendView::Local { gcroots: beside })
            &&& run_lock(args) == text::lossy(
                path::joined(
                    path::joined(beside, encode_utf8(".lock"@)),
                    encode_utf8(args.marker),
                ),
            )
        }),
{
    a_job_stands_behind_the_last_slash(Seq::empty(), args.marker);
    lock::locks_lie_among_the_roots(Seq::empty(), 0, 0, 0);
    reveal_strlit("http://");
    reveal_strlit("https://");
    if "http://"@.is_prefix_of(args.marker) {
        assert("http://"@[5] == '/');
        assert(args.marker[5] == '/');
    }
    if "https://"@.is_prefix_of(args.marker) {
        assert("https://"@[6] == '/');
        assert(args.marker[6] == '/');
    }
}

/// Where a marker has no file name, nothing but the dot and the ending name the file beside it.
pub proof fn a_marker_without_a_name_is_written_all_the_same(
    gcroots: Seq<u8>,
    marker: Seq<char>,
    store_path: Seq<char>,
)
    requires
        path::file_name(encode_utf8(marker)) is None,
    ensures
        put_marker_effect(BackendView::Local { gcroots }, marker, store_path) matches
            EffectView::PlaceMarker { temp, .. } && temp == path::joined(
            gcroots,
            encode_utf8("..tmp"@),
        ),
{
    reveal_strlit("..tmp");
    is_ascii_chars_encode_utf8("..tmp"@);
    assert(temp_name(marker) =~= encode_utf8("..tmp"@));
}

/// The lock of any job lies in the lock directory: below the base of a server, or below the
/// directory of the roots.
pub proof fn the_lock_of_a_job_has_its_name(
    base: Seq<char>,
    curl: Seq<Seq<char>>,
    gcroots: Seq<u8>,
    job: Seq<char>,
)
    ensures
        lock_path_of(BackendView::Remote { base, curl }, job) == base + "/.lock/"@ + job,
        lock_path_of(BackendView::Local { gcroots }, job) == text::lossy(
            path::joined(path::joined(gcroots, encode_utf8(".lock"@)), encode_utf8(job)),
        ),
{
    lock::locks_lie_among_the_roots(gcroots, 0, 0, 0);
}

} // verus!
