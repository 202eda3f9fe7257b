//! What a pruning run keeps and what it deletes.
//!
//! A run collects the garbage collection roots, walks the closure of their store paths, and
//! deletes every file of the cache that nothing in the closure accounts for.

use crate::binary_cache;
use crate::binary_cache::{narinfo_suffix_bytes, NarInfo, NarInfoView};
use crate::byte_set::ByteSet;
use crate::closure_cache;
use crate::closure_cache::{rewrite, Rewrite};
use crate::dep_scan;
use crate::dep_scan::{Closure, DependencyScanner, ScanStep};
use crate::gcroots;
use crate::gcroots::GcRoots;
use crate::path;
use crate::path::last_name;
use crate::progress;
use crate::progress::{HumanBytes, Phase};
use crate::store_hash;
use crate::store_hash::StoreHash;
use crate::text::{append_run, has_suffix};
use vstd::prelude::*;
use vstd::slice::slice_to_vec;
use vstd::string::*;
use vstd::utf8::*;

verus! {

/// Inputs to a pruning run.
#[derive(Debug)]
pub struct Config {
    /// Nothing is deleted or written.
    pub dry_run: bool,
    /// The cache directory.
    pub cache_dir: Vec<u8>,
    /// The directories in which garbage collection roots are.
    pub gcroots: Vec<Vec<u8>>,
    /// How many seconds to wait for uploads to finish.
    pub lock_wait: u64,
}

/// Progress reporters for each phase.
pub struct Progress {
    pub gcroots: Phase,
    pub scanner: Phase,
    pub keep: Phase,
    pub rm_narinfo: Phase,
    pub rm_nar: Phase,
}

impl Progress {
    /// Reporters for a run that nobody watches.
    #[must_use]
    pub fn hidden() -> (r: Self)
        ensures
            r.gcroots@ == progress::fresh_phase(""@, false),
            r.scanner@ == progress::fresh_phase(""@, false),
            r.keep@ == progress::fresh_phase(""@, false),
            r.rm_narinfo@ == progress::fresh_phase(""@, false),
            r.rm_nar@ == progress::fresh_phase(""@, false),
    {
        Progress {
            gcroots: Phase::hidden(),
            scanner: Phase::hidden(),
            keep: Phase::hidden(),
            rm_narinfo: Phase::hidden(),
            rm_nar: Phase::hidden(),
        }
    }
}

// ---------------------------------------------------------------------------------------------
// What is kept
// ---------------------------------------------------------------------------------------------
/// The bytes of `.ls`, the end of the name of a file listing.
pub open spec fn listing_suffix() -> Seq<u8> {
    seq![0x2eu8, 0x6c, 0x73]
}

/// What a run keeps: names of files in the cache directory and of archives, what they amount to,
/// and which store paths name no archive.
#[verifier::ext_equal]
pub struct KeepView {
    pub infos: Set<Seq<u8>>,
    pub archives: Set<Seq<u8>>,
    pub file_size: u64,
    pub nar_size: u64,
    pub malformed: Seq<Seq<u8>>,
}

/// Nothing is kept.
pub open spec fn keeps_nothing() -> KeepView {
    KeepView {
        infos: Set::empty(),
        archives: Set::empty(),
        file_size: 0,
        nar_size: 0,
        malformed: Seq::empty(),
    }
}

/// The name of the archive of a store path: the last component of its URL.
pub open spec fn archive_name(info: NarInfoView) -> Option<Seq<u8>> {
    match info.url {
        Some(url) => path::file_name(encode_utf8(url)),
        None => None,
    }
}

/// Keeps the narinfo and the archive of a store path. One whose URL names no archive is still kept,
/// and noted. The sizes wrap around.
pub open spec fn keeping(k: KeepView, hash: Seq<u8>, info: NarInfoView) -> KeepView {
    KeepView {
        infos: k.infos.insert(hash + binary_cache::narinfo_suffix()),
        archives: match archive_name(info) {
            Some(name) => k.archives.insert(name),
            None => k.archives,
        },
        file_size: k.file_size.wrapping_add(info.file_size),
        nar_size: k.nar_size.wrapping_add(info.nar_size),
        malformed: if archive_name(info) is None {
            k.malformed.push(hash)
        } else {
            k.malformed
        },
    }
}

/// What is kept for a list of store paths with their metadata.
pub open spec fn kept_with_info(infos: Seq<(Seq<u8>, NarInfoView)>) -> KeepView
    decreases infos.len(),
{
    if infos.len() == 0 {
        keeps_nothing()
    } else {
        keeping(kept_with_info(infos.drop_last()), infos.last().0, infos.last().1)
    }
}

/// Keeps the file listings of store paths, whether they have metadata or not.
pub open spec fn with_listings(k: KeepView, hashes: Seq<Seq<u8>>) -> KeepView
    decreases hashes.len(),
{
    if hashes.len() == 0 {
        k
    } else {
        let before = with_listings(k, hashes.drop_last());
        KeepView { infos: before.infos.insert(hashes.last() + listing_suffix()), ..before }
    }
}

/// What is kept for a closure: the file listing of every store path in it, and the narinfo and the
/// archive of those that have metadata.
pub open spec fn kept(hashes: Seq<Seq<u8>>, infos: Seq<(Seq<u8>, NarInfoView)>) -> KeepView {
    with_listings(kept_with_info(infos), hashes)
}

/// A directory of the cache that is swept.
#[derive(Clone, Copy, Debug, PartialEq, Eq, Structural)]
pub enum SweptDir {
    /// The cache directory itself.
    Infos,
    /// The `nar` directory in it.
    Archives,
}

/// Whether files of the given name are swept at all. In the cache directory these are the narinfos
/// and file listings, in the `nar` directory all files.
pub open spec fn is_swept(dir: SweptDir, name: Seq<u8>) -> bool {
    dir == SweptDir::Infos ==> binary_cache::narinfo_suffix().is_suffix_of(name)
        || listing_suffix().is_suffix_of(name)
}

/// Whether a file of the given name is deleted: it is swept, and not kept.
pub open spec fn is_garbage(k: KeepView, dir: SweptDir, name: Seq<u8>) -> bool {
    is_swept(dir, name) && match dir {
        SweptDir::Infos => !k.infos.contains(name),
        SweptDir::Archives => !k.archives.contains(name),
    }
}

/// The name of the narinfo file of a hash.
pub fn narinfo_name(hash: StoreHash) -> (r: Vec<u8>)
    ensures
        r@ == hash@ + binary_cache::narinfo_suffix(),
{
    let mut name = slice_to_vec(hash.as_bytes().as_slice());
    append_run(&mut name, narinfo_suffix_bytes().as_slice());
    name
}

/// The bytes of `.ls`.
fn listing_suffix_bytes() -> (r: [u8; 3])
    ensures
        r@ == listing_suffix(),
{
    let r: [u8; 3] = [0x2e, 0x6c, 0x73];
    assert(r@ =~= listing_suffix());
    r
}

/// The name of the file listing of a hash.
pub fn listing_name(hash: StoreHash) -> (r: Vec<u8>)
    ensures
        r@ == hash@ + listing_suffix(),
{
    let mut name = slice_to_vec(hash.as_bytes().as_slice());
    append_run(&mut name, listing_suffix_bytes().as_slice());
    name
}

/// What is kept of a cache.
///
/// Only file names are held, not whole paths: each directory that is swept has a single level.
pub struct KeepSet {
    infos: ByteSet,
    archives: ByteSet,
    file_size: u64,
    nar_size: u64,
    malformed: Vec<StoreHash>,
}

impl View for KeepSet {
    type V = KeepView;

    closed spec fn view(&self) -> KeepView {
        KeepView {
            infos: self.infos@,
            archives: self.archives@,
            file_size: self.file_size,
            nar_size: self.nar_size,
            malformed: binary_cache::hashes(self.malformed@),
        }
    }
}

impl KeepSet {
    /// Keeps nothing.
    pub fn new() -> (r: Self)
        ensures
            r@ == keeps_nothing(),
    {
        let r = KeepSet {
            infos: ByteSet::new(),
            archives: ByteSet::new(),
            file_size: 0,
            nar_size: 0,
            malformed: Vec::new(),
        };
        assert(r@ =~= keeps_nothing());
        r
    }

    /// Keeps the narinfo and the archive of a store path.
    pub fn keep(&mut self, hash: StoreHash, info: &NarInfo)
        ensures
            final(self)@ == keeping(old(self)@, hash@, info@),
    {
        let archive = match &info.url {
            Some(url) => last_name(url.as_str().as_bytes()),
            None => None,
        };
        let ghost before = self.malformed@;
        match archive {
            Some(name) => {
                let _ = self.archives.insert(name);
            },
            None => {
                self.malformed.push(hash);
                assert(binary_cache::hashes(self.malformed@) =~= binary_cache::hashes(before).push(
                    hash@,
                ));
            },
        }
        self.file_size = self.file_size.wrapping_add(info.file_size);
        self.nar_size = self.nar_size.wrapping_add(info.nar_size);
        let _ = self.infos.insert(narinfo_name(hash).as_slice());
        assert(self@ =~= keeping(old(self)@, hash@, info@));
    }

    /// Keeps the file listing of a store path.
    pub fn keep_listing(&mut self, hash: StoreHash)
        ensures
            final(self)@ == (KeepView {
                infos: old(self)@.infos.insert(hash@ + listing_suffix()),
                ..old(self)@
            }),
    {
        let _ = self.infos.insert(listing_name(hash).as_slice());
        assert(self@ =~= (KeepView {
            infos: old(self)@.infos.insert(hash@ + listing_suffix()),
            ..old(self)@
        }));
    }

    /// Keeps the files of a closure.
    pub fn keep_all(closure: &Closure) -> (r: Self)
        ensures
            r@ == kept(
                binary_cache::hashes(closure.hashes@),
                closure_cache::entries(closure.infos@),
            ),
    {
        let infos = &closure.infos;
        let hashes = &closure.hashes;
        let ghost all = closure_cache::entries(infos@);
        let mut keep = KeepSet::new();
        let mut i: usize = 0;
        assert(all.take(0) =~= Seq::<(Seq<u8>, NarInfoView)>::empty());
        while i < infos.len()
            invariant
                all == closure_cache::entries(infos@),
                i <= infos@.len(),
                keep@ == kept_with_info(all.take(i as int)),
            decreases infos@.len() - i,
        {
            assert(all[i as int] == (infos@[i as int].0@, infos@[i as int].1@));
            keep.keep(infos[i].0, &infos[i].1);
            assert(all.take(i + 1).drop_last() =~= all.take(i as int));
            i = i + 1;
        }
        assert(all.take(i as int) =~= all);
        let ghost found = keep@;
        let ghost met = binary_cache::hashes(hashes@);
        let mut j: usize = 0;
        assert(met.take(0) =~= Seq::<Seq<u8>>::empty());
        while j < hashes.len()
            invariant
                met == binary_cache::hashes(hashes@),
                j <= hashes@.len(),
                keep@ == with_listings(found, met.take(j as int)),
            decreases hashes@.len() - j,
        {
            keep.keep_listing(hashes[j]);
            assert(met.take(j + 1).drop_last() =~= met.take(j as int));
            j = j + 1;
        }
        assert(met.take(j as int) =~= met);
        keep
    }

    /// Whether a file of the given name is deleted.
    pub fn should_delete(&self, dir: SweptDir, name: &[u8]) -> (r: bool)
        ensures
            r == is_garbage(self@, dir, name@),
    {
        match dir {
            SweptDir::Infos => {
                (has_suffix(name, narinfo_suffix_bytes().as_slice()) || has_suffix(
                    name,
                    listing_suffix_bytes().as_slice(),
                )) && !self.infos.contains(name)
            },
            SweptDir::Archives => !self.archives.contains(name),
        }
    }

    /// How large the archives are that are kept.
    pub fn file_size(&self) -> (r: u64)
        ensures
            r == self@.file_size,
    {
        self.file_size
    }

    /// How large the store paths are that are kept.
    pub fn nar_size(&self) -> (r: u64)
        ensures
            r == self@.nar_size,
    {
        self.nar_size
    }

    /// The store paths that are kept without an archive.
    pub fn malformed(&self) -> (r: &Vec<StoreHash>)
        ensures
            binary_cache::hashes(r@) == self@.malformed,
    {
        &self.malformed
    }

    /// What is kept, for people to read.
    pub fn message(&self) -> (r: String)
        ensures
            r@ == progress::human_text(self@.nar_size as nat) + " in "@ + progress::human_text(
                self@.file_size as nat,
            ) + " archive files"@,
    {
        let mut out = HumanBytes(self.nar_size).to_text();
        out.append(" in ");
        out.append(HumanBytes(self.file_size).to_text().as_str());
        out.append(" archive files");
        out
    }
}

/// What is said of a store path that is kept without an archive.
pub fn malformed_warning(hash: &StoreHash) -> (r: String)
    ensures
        r@ == "Malformed narinfo (missing URL): "@ + store_hash::ascii_text(hash@) + ".narinfo"@,
{
    let mut out = "Malformed narinfo (missing URL): ".to_owned();
    out.append(hash.as_str());
    out.append(".narinfo");
    out
}

// ---------------------------------------------------------------------------------------------
// The sweep
// ---------------------------------------------------------------------------------------------
/// What becomes of a file.
#[derive(Clone, Copy, Debug, PartialEq, Eq, Structural)]
pub enum Fate {
    /// It stays.
    Kept,
    /// It would be deleted, if this were not a dry run.
    Counted,
    /// It is to be deleted.
    Removed,
}

/// What becomes of a file of the given name.
pub open spec fn fate_of(k: KeepView, dir: SweptDir, dry_run: bool, name: Seq<u8>) -> Fate {
    if !is_garbage(k, dir, name) {
        Fate::Kept
    } else if dry_run {
        Fate::Counted
    } else {
        Fate::Removed
    }
}

/// The size of a file, as far as it could be told.
pub open spec fn size_or_zero(size: Option<u64>) -> u64 {
    match size {
        Some(n) => n,
        None => 0,
    }
}

/// What the garbage in a listing amounts to. The total wraps around.
pub open spec fn garbage_size(
    k: KeepView,
    dir: SweptDir,
    files: Seq<(Seq<u8>, Option<u64>)>,
) -> u64
    decreases files.len(),
{
    if files.len() == 0 {
        0
    } else {
        let before = garbage_size(k, dir, files.drop_last());
        if is_garbage(k, dir, files.last().0) {
            before.wrapping_add(size_or_zero(files.last().1))
        } else {
            before
        }
    }
}

/// A sweep over a directory of the cache.
pub struct Sweep<'a> {
    keep: &'a KeepSet,
    dir: SweptDir,
    dry_run: bool,
    total: u64,
}

impl<'a> Sweep<'a> {
    /// What is kept.
    pub closed spec fn keeps(&self) -> KeepView {
        self.keep@
    }

    /// Which directory is swept.
    pub closed spec fn dir(&self) -> SweptDir {
        self.dir
    }

    /// Whether nothing is deleted.
    pub closed spec fn is_dry(&self) -> bool {
        self.dry_run
    }

    /// What the garbage amounts to so far.
    pub closed spec fn amount(&self) -> u64 {
        self.total
    }

    /// A sweep that has met no file.
    pub fn new(keep: &'a KeepSet, dir: SweptDir, dry_run: bool) -> (r: Self)
        ensures
            r.keeps() == keep@,
            r.dir() == dir,
            r.is_dry() == dry_run,
            r.amount() == 0,
    {
        Sweep { keep, dir, dry_run, total: 0 }
    }

    /// Whether a file of the given name is garbage, so that its size is wanted.
    pub fn wants(&self, name: &[u8]) -> (r: bool)
        ensures
            r == is_garbage(self.keeps(), self.dir(), name@),
    {
        self.keep.should_delete(self.dir, name)
    }

    /// Takes a file into account and says what becomes of it. The size of garbage counts, as far
    /// as it could be told.
    pub fn meet(&mut self, name: &[u8], size: Option<u64>) -> (r: Fate)
        ensures
            r == fate_of(old(self).keeps(), old(self).dir(), old(self).is_dry(), name@),
            final(self).keeps() == old(self).keeps(),
            final(self).dir() == old(self).dir(),
            final(self).is_dry() == old(self).is_dry(),
            final(self).amount() == (if is_garbage(old(self).keeps(), old(self).dir(), name@) {
                old(self).amount().wrapping_add(size_or_zero(size))
            } else {
                old(self).amount()
            }),
    {
        if !self.wants(name) {
            return Fate::Kept;
        }
        match size {
            Some(n) => {
                self.total = self.total.wrapping_add(n);
            },
            None => {},
        }
        if self.dry_run {
            Fate::Counted
        } else {
            Fate::Removed
        }
    }

    /// What the garbage amounts to.
    pub fn total(&self) -> (r: u64)
        ensures
            r == self.amount(),
    {
        self.total
    }
}

/// Sweeps a listing of a directory: names the files that are to be deleted, in order, and says
/// what the garbage amounts to.
pub fn sweep(
    keep: &KeepSet,
    dir: SweptDir,
    dry_run: bool,
    files: &Vec<(Vec<u8>, Option<u64>)>,
) -> (r: (Vec<Vec<u8>>, u64))
    ensures
        path::paths_view(r.0@) == removed(keep@, dir, dry_run, listing(files@)),
        r.1 == garbage_size(keep@, dir, listing(files@)),
{
    let ghost all = listing(files@);
    let mut sweep = Sweep::new(keep, dir, dry_run);
    let mut out: Vec<Vec<u8>> = Vec::new();
    let mut i: usize = 0;
    assert(all.take(0) =~= Seq::<(Seq<u8>, Option<u64>)>::empty());
    assert(path::paths_view(out@) =~= Seq::<Seq<u8>>::empty());
    while i < files.len()
        invariant
            all == listing(files@),
            i <= files@.len(),
            sweep.keeps() == keep@,
            sweep.dir() == dir,
            sweep.is_dry() == dry_run,
            sweep.amount() == garbage_size(keep@, dir, all.take(i as int)),
            path::paths_view(out@) == removed(keep@, dir, dry_run, all.take(i as int)),
        decreases files@.len() - i,
    {
        let ghost before = out@;
        assert(all[i as int] == (files@[i as int].0@, files@[i as int].1));
        assert(all.take(i + 1).drop_last() =~= all.take(i as int));
        let fate = sweep.meet(files[i].0.as_slice(), files[i].1);
        if fate == Fate::Removed {
            out.push(slice_to_vec(files[i].0.as_slice()));
            assert(path::paths_view(out@) =~= path::paths_view(before).push(
                files@[i as int].0@,
            ));
        }
        i = i + 1;
    }
    assert(all.take(i as int) =~= all);
    (out, sweep.total())
}

/// Names and sizes as they stand in a list.
pub open spec fn listing(files: Seq<(Vec<u8>, Option<u64>)>) -> Seq<(Seq<u8>, Option<u64>)> {
    files.map_values(|f: (Vec<u8>, Option<u64>)| (f.0@, f.1))
}

/// The names in a listing of the files that are to be deleted.
pub open spec fn removed(
    k: KeepView,
    dir: SweptDir,
    dry_run: bool,
    files: Seq<(Seq<u8>, Option<u64>)>,
) -> Seq<Seq<u8>>
    decreases files.len(),
{
    if files.len() == 0 {
        Seq::empty()
    } else {
        let before = removed(k, dir, dry_run, files.drop_last());
        if fate_of(k, dir, dry_run, files.last().0) == Fate::Removed {
            before.push(files.last().0)
        } else {
            before
        }
    }
}

// ---------------------------------------------------------------------------------------------
// The run
// ---------------------------------------------------------------------------------------------
/// What a run has decided: the closure of the roots, what is kept of the cache, and what is
/// written to the closure cache.
pub struct Plan {
    pub closure: Closure,
    pub keep: KeepSet,
    pub closures: Option<Rewrite>,
}

/// Whether a plan is what comes of a walk over a closure.
pub open spec fn plans(plan: Plan, config: Config, walk: dep_scan::Walk) -> bool {
    &&& binary_cache::hashes(plan.closure.hashes@) == walk.asked
    &&& closure_cache::entries(plan.closure.infos@) == walk.found
    &&& plan.keep@ == kept(walk.asked, walk.found)
    &&& match plan.closures {
        Some(rewrite) => !config.dry_run && rewrite@ == closure_cache::rewriting(
            config.cache_dir@,
            walk.found,
        ),
        None => config.dry_run,
    }
}

/// Whether a store path that can be reached from the roots accounts for a file of the given name.
/// Any accounts for its file listing; one that has metadata accounts for its narinfo and archive.
pub open spec fn accounted_for(
    infos: spec_fn(Seq<u8>) -> Option<NarInfoView>,
    roots: Seq<Seq<u8>>,
    dir: SweptDir,
    name: Seq<u8>,
) -> bool {
    match dir {
        SweptDir::Infos => exists|h: Seq<u8>|
            {
                &&& #[trigger] dep_scan::reachable(infos, roots, h)
                &&& name == h + listing_suffix() || (infos(h) is Some && name == h
                    + binary_cache::narinfo_suffix())
            },
        SweptDir::Archives => exists|h: Seq<u8>|
            {
                &&& #[trigger] dep_scan::reachable(infos, roots, h)
                &&& infos(h) is Some
                &&& archive_name(infos(h)->0) == Some(name)
            },
    }
}

/// Whether `lookup` gives the metadata that `infos` says.
pub open spec fn answers<F: Fn(ScanStep) -> Option<NarInfo>>(
    lookup: F,
    infos: spec_fn(Seq<u8>) -> Option<NarInfoView>,
) -> bool {
    forall|step: ScanStep, info: Option<NarInfo>| #[trigger]
        call_ensures(lookup, (step,), info) ==> dep_scan::opt_info(info) == infos(step.hash@)
}

/// Puts all roots into a scan.
fn scanner_of(roots: &GcRoots) -> (r: DependencyScanner)
    ensures
        r@ == dep_scan::rooted(gcroots::root_hashes_of(roots@.store_paths)),
        dep_scan::scan_wf(r@),
{
    let hashes = roots.root_hashes();
    let ghost all = binary_cache::hashes(hashes@);
    let mut scanner = DependencyScanner::new();
    let mut i: usize = 0;
    assert(all.take(0) =~= Seq::<Seq<u8>>::empty());
    while i < hashes.len()
        invariant
            all == binary_cache::hashes(hashes@),
            i <= hashes@.len(),
            scanner@ == dep_scan::met_all(dep_scan::nothing_seen(), all.take(i as int)),
            dep_scan::scan_wf(scanner@),
        decreases hashes@.len() - i,
    {
        scanner.enqueue(hashes[i]);
        assert(all.take(i + 1).drop_last() =~= all.take(i as int));
        i = i + 1;
    }
    assert(all.take(i as int) =~= all);
    scanner
}

/// Plans a full prune: walks the closure of the roots and decides what is kept. `lookup` is asked
/// once for each store path of the closure. In a dry run nothing is written to the closure cache.
///
/// Where `lookup` follows one account of the metadata, exactly those files go that are swept and
/// that no store path accounts for which can be reached from the roots by it.
pub fn run<F: Fn(ScanStep) -> Option<NarInfo>>(config: &Config, roots: &GcRoots, lookup: F) -> (r:
    Plan)
    requires
        forall|step: ScanStep| #[trigger] call_requires(lookup, (step,)),
    ensures
        ({
            let start = dep_scan::rooted(gcroots::root_hashes_of(roots@.store_paths));
            exists|rs: Seq<Option<NarInfoView>>|
                {
                    &&& #[trigger] dep_scan::ends_with(start, rs)
                    &&& forall|k: int|
                        0 <= k < rs.len() ==> dep_scan::replies(
                            lookup,
                            (#[trigger] dep_scan::walk(start, rs.take(k))).state,
                            rs[k],
                        )
                    &&& plans(r, *config, dep_scan::walk(start, rs))
                }
        }),
        forall|
            infos: spec_fn(Seq<u8>) -> Option<NarInfoView>,
            dir: SweptDir,
            name: Seq<u8>,
        |
            #![trigger answers(lookup, infos), is_garbage(r.keep@, dir, name)]
            answers(lookup, infos) ==> (is_garbage(r.keep@, dir, name) <==> is_swept(dir, name)
                && !accounted_for(
                infos,
                gcroots::root_hashes_of(roots@.store_paths),
                dir,
                name,
            )),
{
    let scanner = scanner_of(roots);
    let ghost start = scanner@;
    let closure = scanner.closure(lookup);
    let closures = if config.dry_run {
        None
    } else {
        Some(rewrite(config.cache_dir.as_slice(), &closure.infos))
    };
    let keep = KeepSet::keep_all(&closure);
    proof {
        let hashes = gcroots::root_hashes_of(roots@.store_paths);
        let rs = choose|rs: Seq<Option<NarInfoView>>|
            {
                &&& #[trigger] dep_scan::ends_with(start, rs)
                &&& forall|k: int|
                    0 <= k < rs.len() ==> dep_scan::replies(
                        lookup,
                        (#[trigger] dep_scan::walk(start, rs.take(k))).state,
                        rs[k],
                    )
                &&& binary_cache::hashes(closure.hashes@) == dep_scan::walk(start, rs).asked
                &&& closure_cache::entries(closure.infos@) == dep_scan::walk(start, rs).found
            };
        assert forall|
            model: spec_fn(Seq<u8>) -> Option<NarInfoView>,
            dir: SweptDir,
            name: Seq<u8>,
        |
            #![trigger answers(lookup, model), is_garbage(keep@, dir, name)]
            answers(lookup, model) implies (is_garbage(keep@, dir, name) <==> is_swept(dir, name)
            && !accounted_for(model, hashes, dir, name)) by {
            assert forall|k: int| 0 <= k < rs.len() implies model(
                (#[trigger] dep_scan::walk(start, rs.take(k))).state.queue[0],
            ) == rs[k] by {
                assert(dep_scan::replies(lookup, dep_scan::walk(start, rs.take(k)).state, rs[k]));
            }
            a_run_deletes_exactly_the_garbage(model, hashes, rs, dir, name);
        }
    }
    Plan { closure, keep, closures }
}

// ---------------------------------------------------------------------------------------------
// Laws
// ---------------------------------------------------------------------------------------------
/// Whether an entry of a list accounts for a file of the given name.
spec fn accounts(e: (Seq<u8>, NarInfoView), dir: SweptDir, name: Seq<u8>) -> bool {
    match dir {
        SweptDir::Infos => name == e.0 + binary_cache::narinfo_suffix(),
        SweptDir::Archives => archive_name(e.1) == Some(name),
    }
}

spec fn keeps_name(k: KeepView, dir: SweptDir, name: Seq<u8>) -> bool {
    match dir {
        SweptDir::Infos => k.infos.contains(name),
        SweptDir::Archives => k.archives.contains(name),
    }
}

proof fn lemma_kept_names(list: Seq<(Seq<u8>, NarInfoView)>, dir: SweptDir, name: Seq<u8>)
    ensures
        keeps_name(kept_with_info(list), dir, name) <==> exists|k: int|
            0 <= k < list.len() && accounts(#[trigger] list[k], dir, name),
    decreases list.len(),
{
    if list.len() > 0 {
        let shorter = list.drop_last();
        lemma_kept_names(shorter, dir, name);
        assert(list.last() == list[list.len() - 1]);
        if keeps_name(kept_with_info(shorter), dir, name) {
            let k = choose|k: int|
                0 <= k < shorter.len() && accounts(#[trigger] shorter[k], dir, name);
            assert(accounts(list[k], dir, name));
        }
        if exists|k: int| 0 <= k < list.len() && accounts(#[trigger] list[k], dir, name) {
            let k = choose|k: int| 0 <= k < list.len() && accounts(#[trigger] list[k], dir, name);
            if k < list.len() - 1 {
                assert(accounts(shorter[k], dir, name));
            }
        }
    }
}

proof fn lemma_kept_listings(k: KeepView, hashes: Seq<Seq<u8>>, name: Seq<u8>)
    ensures
        with_listings(k, hashes).archives == k.archives,
        with_listings(k, hashes).infos.contains(name) <==> k.infos.contains(name) || exists|i: int|
            0 <= i < hashes.len() && name == #[trigger] hashes[i] + listing_suffix(),
    decreases hashes.len(),
{
    if hashes.len() > 0 {
        let shorter = hashes.drop_last();
        lemma_kept_listings(k, shorter, name);
        assert(hashes.last() == hashes[hashes.len() - 1]);
        if exists|i: int|
            0 <= i < shorter.len() && name == #[trigger] shorter[i] + listing_suffix() {
            let i = choose|i: int|
                0 <= i < shorter.len() && name == #[trigger] shorter[i] + listing_suffix();
            assert(name == hashes[i] + listing_suffix());
        }
        if exists|i: int|
            0 <= i < hashes.len() && name == #[trigger] hashes[i] + listing_suffix() {
            let i = choose|i: int|
                0 <= i < hashes.len() && name == #[trigger] hashes[i] + listing_suffix();
            if i < shorter.len() {
                assert(name == shorter[i] + listing_suffix());
            }
        }
    }
}

/// A run deletes exactly what the roots do not account for: a file goes if and only if it is of a
/// kind that is swept, and no store path that can be reached from the roots keeps it.
pub proof fn a_run_deletes_exactly_the_garbage(
    infos: spec_fn(Seq<u8>) -> Option<NarInfoView>,
    roots: Seq<Seq<u8>>,
    replies: Seq<Option<NarInfoView>>,
    dir: SweptDir,
    name: Seq<u8>,
)
    requires
        dep_scan::ends_with(dep_scan::rooted(roots), replies),
        dep_scan::agree(dep_scan::rooted(roots), replies, infos),
    ensures
        ({
            let w = dep_scan::walk(dep_scan::rooted(roots), replies);
            is_garbage(kept(w.asked, w.found), dir, name) <==> is_swept(dir, name)
                && !accounted_for(infos, roots, dir, name)
        }),
{
    let w = dep_scan::walk(dep_scan::rooted(roots), replies);
    let found = w.found;
    dep_scan::the_scan_finds_the_closure(infos, roots, replies);
    lemma_kept_names(found, dir, name);
    lemma_kept_listings(kept_with_info(found), w.asked, name);
    if keeps_name(kept_with_info(found), dir, name) {
        let k = choose|k: int| 0 <= k < found.len() && accounts(#[trigger] found[k], dir, name);
        let (h, info) = found[k];
        assert(found.contains((h, info)));
        assert(dep_scan::reachable(infos, roots, h));
    } else if keeps_name(kept(w.asked, found), dir, name) {
        let i = choose|i: int|
            0 <= i < w.asked.len() && name == #[trigger] w.asked[i] + listing_suffix();
        assert(w.asked.contains(w.asked[i]));
        assert(dep_scan::reachable(infos, roots, w.asked[i]));
    }
    if accounted_for(infos, roots, dir, name) {
        let h = match dir {
            SweptDir::Infos => choose|h: Seq<u8>|
                {
                    &&& #[trigger] dep_scan::reachable(infos, roots, h)
                    &&& name == h + listing_suffix() || (infos(h) is Some && name == h
                        + binary_cache::narinfo_suffix())
                },
            SweptDir::Archives => choose|h: Seq<u8>|
                {
                    &&& #[trigger] dep_scan::reachable(infos, roots, h)
                    &&& infos(h) is Some
                    &&& archive_name(infos(h)->0) == Some(name)
                },
        };
        if dir == SweptDir::Infos && name == h + listing_suffix() {
            assert(w.asked.contains(h));
            let i = choose|i: int| 0 <= i < w.asked.len() && w.asked[i] == h;
            assert(name == w.asked[i] + listing_suffix());
        } else {
            let e = (h, infos(h)->0);
            assert(found.contains(e));
            let k = choose|k: int| 0 <= k < found.len() && found[k] == e;
            assert(accounts(found[k], dir, name));
        }
    }
}

/// Roots are kept, and so is everything that what is kept needs: the file listing of a store path
/// stays if it is a root or needed by a store path that can be reached, and so do its narinfo and
/// its archive, if it has metadata.
pub proof fn what_is_needed_is_kept(
    infos: spec_fn(Seq<u8>) -> Option<NarInfoView>,
    roots: Seq<Seq<u8>>,
    user: Seq<u8>,
    hash: Seq<u8>,
)
    requires
        roots.contains(hash) || (dep_scan::reachable(infos, roots, user) && dep_scan::leads_to(
            infos,
            user,
            hash,
        )),
    ensures
        dep_scan::reachable(infos, roots, hash),
        accounted_for(infos, roots, SweptDir::Infos, hash + listing_suffix()),
        infos(hash) matches Some(info) ==> {
            &&& accounted_for(
                infos,
                roots,
                SweptDir::Infos,
                hash + binary_cache::narinfo_suffix(),
            )
            &&& archive_name(info) matches Some(name) ==> accounted_for(
                infos,
                roots,
                SweptDir::Archives,
                name,
            )
        },
{
    if roots.contains(hash) {
        let p = seq![hash];
        assert(dep_scan::is_path(infos, roots, p) && p.last() == hash);
    } else {
        dep_scan::lemma_reach_further(infos, roots, user, hash);
    }
    assert(dep_scan::reachable(infos, roots, hash));
}

/// A dry run deletes nothing.
pub proof fn a_dry_run_deletes_nothing(
    k: KeepView,
    dir: SweptDir,
    files: Seq<(Seq<u8>, Option<u64>)>,
)
    ensures
        removed(k, dir, true, files) == Seq::<Seq<u8>>::empty(),
    decreases files.len(),
{
    if files.len() > 0 {
        a_dry_run_deletes_nothing(k, dir, files.drop_last());
    }
}

/// A sweep deletes all the garbage in a directory, and nothing else.
pub proof fn a_sweep_deletes_all_garbage(
    k: KeepView,
    dir: SweptDir,
    files: Seq<(Seq<u8>, Option<u64>)>,
    name: Seq<u8>,
)
    ensures
        removed(k, dir, false, files).contains(name) <==> is_garbage(k, dir, name) && exists|i: int|
            0 <= i < files.len() && (#[trigger] files[i]).0 == name,
    decreases files.len(),
{
    if files.len() > 0 {
        let shorter = files.drop_last();
        let before = removed(k, dir, false, shorter);
        let all = removed(k, dir, false, files);
        a_sweep_deletes_all_garbage(k, dir, shorter, name);
        assert(files.last() == files[files.len() - 1]);
        if before.contains(name) {
            let j = choose|j: int| 0 <= j < before.len() && before[j] == name;
            assert(all[j] == name);
            let i = choose|i: int| 0 <= i < shorter.len() && (#[trigger] shorter[i]).0 == name;
            assert(files[i].0 == name);
        }
        if is_garbage(k, dir, files.last().0) {
            assert(all.last() == files.last().0);
            assert(all.contains(files.last().0));
        }
        if is_garbage(k, dir, name) && exists|i: int|
            0 <= i < files.len() && (#[trigger] files[i]).0 == name {
            let i = choose|i: int| 0 <= i < files.len() && (#[trigger] files[i]).0 == name;
            if i < files.len() - 1 {
                assert(shorter[i].0 == name);
            }
        }
        if all.contains(name) && !before.contains(name) {
            let j = choose|j: int| 0 <= j < all.len() && all[j] == name;
            assert(j == before.len());
        }
    }
}

/// Files of the cache directory that are neither narinfos nor file listings are never deleted.
pub proof fn other_files_stay(k: KeepView, name: Seq<u8>)
    requires
        !is_swept(SweptDir::Infos, name),
    ensures
        !is_garbage(k, SweptDir::Infos, name),
{
}

/// The closure cache is not swept away.
pub proof fn the_closure_cache_stays(k: KeepView)
    ensures
        !is_garbage(k, SweptDir::Infos, encode_utf8(".kiss-cache.closures"@)),
{
    let name = ".kiss-cache.closures"@;
    reveal_strlit(".kiss-cache.closures");
    is_ascii_chars_encode_utf8(name);
    let bytes = encode_utf8(name);
    assert(bytes.len() == 20);
    assert(bytes[18] == 0x65);
    assert(bytes[19] == 0x73);
    let info = binary_cache::narinfo_suffix();
    let ls = listing_suffix();
    if info.is_suffix_of(bytes) {
        assert(bytes.skip(12)[7] == info[7]);
    }
    if ls.is_suffix_of(bytes) {
        assert(bytes.skip(17)[1] == ls[1]);
    }
}

/// A run that has the metadata of a store path from the closure cache walks on to the same store
/// paths and keeps the same files as one that reads the narinfo. The cache cannot say URLs of more
/// than 65535 bytes, nor more than 65535 references.
pub proof fn the_closure_cache_changes_nothing(k: KeepView, hash: Seq<u8>, info: NarInfoView)
    requires
        info.url matches Some(url) ==> encode_utf8(url).len() <= closure_cache::COUNT_MAX,
        info.references.len() <= closure_cache::COUNT_MAX,
    ensures
        dep_scan::needs(closure_cache::stored(info)) == dep_scan::needs(info),
        keeping(k, hash, closure_cache::stored(info)) == keeping(k, hash, info),
{
    assert(closure_cache::kept_references(info.references) =~= info.references);
    if let Some(url) = info.url {
        if encode_utf8(url).len() == 0 {
            path::lemma_component_bounds(encode_utf8(url));
            assert(archive_name(info) is None);
        }
    }
    assert(keeping(k, hash, closure_cache::stored(info)) =~= keeping(k, hash, info));
}

// ---------------------------------------------------------------------------------------------
// Laws over names and URLs
// ---------------------------------------------------------------------------------------------
proof fn lemma_suffixes()
    ensures
        binary_cache::narinfo_suffix() == encode_utf8(".narinfo"@),
        listing_suffix() == encode_utf8(".ls"@),
{
    reveal_strlit(".narinfo");
    reveal_strlit(".ls");
    is_ascii_chars_encode_utf8(".narinfo"@);
    is_ascii_chars_encode_utf8(".ls"@);
    assert(encode_utf8(".narinfo"@) =~= binary_cache::narinfo_suffix());
    assert(encode_utf8(".ls"@) =~= listing_suffix());
}

/// Whether the URL in a narinfo leads to a file of the given name.
pub open spec fn url_leads_to(info: NarInfoView, name: Seq<u8>) -> bool {
    info.url is Some && path::file_name(encode_utf8(info.url->0)) == Some(name)
}

/// Keeping a store path keeps the file that its URL leads to, whatever it is called, and its
/// narinfo, next to what was kept before, and nothing else. One whose URL leads to no file is
/// noted, and only such a one.
pub proof fn keeping_keeps_what_a_url_leads_to(
    k: KeepView,
    hash: Seq<u8>,
    info: NarInfoView,
    name: Seq<u8>,
)
    ensures
        keeping(k, hash, info).archives.contains(name) <==> k.archives.contains(name)
            || url_leads_to(info, name),
        keeping(k, hash, info).infos.contains(name) <==> k.infos.contains(name) || name == hash
            + encode_utf8(".narinfo"@),
        keeping(k, hash, info).malformed == (if exists|n: Seq<u8>| #[trigger] url_leads_to(info, n) {
            k.malformed
        } else {
            k.malformed.push(hash)
        }),
        keeping(k, hash, info).file_size as nat == (k.file_size + info.file_size)
            % 0x1_0000_0000_0000_0000,
        keeping(k, hash, info).nar_size as nat == (k.nar_size + info.nar_size)
            % 0x1_0000_0000_0000_0000,
{
    lemma_suffixes();
    if let Some(url) = info.url {
        if let Some(n) = path::file_name(encode_utf8(url)) {
            assert(url_leads_to(info, n));
        }
    }
}

/// What is kept for a closure: the file that a URL leads to, for each URL, and the narinfo of each
/// store path with metadata, and the file listing of every store path; and nothing else.
pub proof fn a_closure_keeps_the_files_of_all_its_store_paths(
    hashes: Seq<Seq<u8>>,
    infos: Seq<(Seq<u8>, NarInfoView)>,
    name: Seq<u8>,
)
    ensures
        kept(hashes, infos).archives.contains(name) <==> exists|k: int|
            0 <= k < infos.len() && url_leads_to((#[trigger] infos[k]).1, name),
        kept(hashes, infos).infos.contains(name) <==> (exists|k: int|
            0 <= k < infos.len() && name == (#[trigger] infos[k]).0 + encode_utf8(".narinfo"@))
            || (exists|k: int|
            0 <= k < hashes.len() && name == #[trigger] hashes[k] + encode_utf8(".ls"@)),
{
    lemma_suffixes();
    let found = kept_with_info(infos);
    lemma_kept_names(infos, SweptDir::Archives, name);
    lemma_kept_names(infos, SweptDir::Infos, name);
    lemma_kept_listings(found, hashes, name);
    if exists|k: int| 0 <= k < infos.len() && accounts(#[trigger] infos[k], SweptDir::Archives, name) {
        let k = choose|k: int|
            0 <= k < infos.len() && accounts(#[trigger] infos[k], SweptDir::Archives, name);
        assert(url_leads_to(infos[k].1, name));
    }
    if exists|k: int| 0 <= k < infos.len() && url_leads_to((#[trigger] infos[k]).1, name) {
        let k = choose|k: int| 0 <= k < infos.len() && url_leads_to((#[trigger] infos[k]).1, name);
        assert(accounts(infos[k], SweptDir::Archives, name));
    }
    if exists|k: int| 0 <= k < infos.len() && accounts(#[trigger] infos[k], SweptDir::Infos, name) {
        let k = choose|k: int|
            0 <= k < infos.len() && accounts(#[trigger] infos[k], SweptDir::Infos, name);
        assert(name == infos[k].0 + encode_utf8(".narinfo"@));
    }
    if exists|k: int| 0 <= k < infos.len() && name == (#[trigger] infos[k]).0 + encode_utf8(".narinfo"@) {
        let k = choose|k: int|
            0 <= k < infos.len() && name == (#[trigger] infos[k]).0 + encode_utf8(".narinfo"@);
        assert(accounts(infos[k], SweptDir::Infos, name));
    }
}

/// What sizes amount to.
pub open spec fn sum_of(sizes: Seq<u64>) -> nat
    decreases sizes.len(),
{
    if sizes.len() == 0 {
        0
    } else {
        sum_of(sizes.drop_last()) + sizes.last() as nat
    }
}

/// What is kept amounts to the sum of the sizes that the narinfos say, as far as the counter can
/// hold it, and lists the store paths without an archive in order.
pub proof fn what_is_kept_adds_up(hashes: Seq<Seq<u8>>, infos: Seq<(Seq<u8>, NarInfoView)>)
    ensures
        kept(hashes, infos).file_size as nat == sum_of(
            infos.map_values(|e: (Seq<u8>, NarInfoView)| e.1.file_size),
        ) % 0x1_0000_0000_0000_0000,
        kept(hashes, infos).nar_size as nat == sum_of(
            infos.map_values(|e: (Seq<u8>, NarInfoView)| e.1.nar_size),
        ) % 0x1_0000_0000_0000_0000,
        kept(hashes, infos).malformed == kept(Seq::empty(), infos).malformed,
    decreases infos.len() + hashes.len(),
{
    let files = infos.map_values(|e: (Seq<u8>, NarInfoView)| e.1.file_size);
    let nars = infos.map_values(|e: (Seq<u8>, NarInfoView)| e.1.nar_size);
    if hashes.len() > 0 {
        what_is_kept_adds_up(hashes.drop_last(), infos);
    } else if infos.len() > 0 {
        let shorter = infos.drop_last();
        let (h, info) = infos.last();
        what_is_kept_adds_up(hashes, shorter);
        assert(hashes =~= Seq::empty());
        let k = kept_with_info(shorter);
        keeping_keeps_what_a_url_leads_to(k, h, info, h);
        assert(files.drop_last() =~= shorter.map_values(
            |e: (Seq<u8>, NarInfoView)| e.1.file_size,
        ));
        assert(nars.drop_last() =~= shorter.map_values(|e: (Seq<u8>, NarInfoView)| e.1.nar_size));
        let (a, b) = (sum_of(files.drop_last()), sum_of(nars.drop_last()));
        assert((a % 0x1_0000_0000_0000_0000 + info.file_size) % 0x1_0000_0000_0000_0000 == (a
            + info.file_size) % 0x1_0000_0000_0000_0000);
        assert((b % 0x1_0000_0000_0000_0000 + info.nar_size) % 0x1_0000_0000_0000_0000 == (b
            + info.nar_size) % 0x1_0000_0000_0000_0000);
    } else {
        assert(hashes =~= Seq::empty());
    }
}

/// Whether what can be reached from the roots holds on to a file of the given name: to a file that
/// a URL leads to, to a narinfo that could be read, or to a file listing.
pub open spec fn held_on_to(
    infos: spec_fn(Seq<u8>) -> Option<NarInfoView>,
    roots: Seq<Seq<u8>>,
    dir: SweptDir,
    h: Seq<u8>,
    name: Seq<u8>,
) -> bool {
    &&& dep_scan::reachable(infos, roots, h)
    &&& match dir {
        SweptDir::Infos => name == h + encode_utf8(".ls"@) || (infos(h) is Some && name == h
            + encode_utf8(".narinfo"@)),
        SweptDir::Archives => infos(h) is Some && infos(h)->0.url is Some && path::file_name(
            encode_utf8(infos(h)->0.url->0),
        ) == Some(name),
    }
}

/// A store path that can be reached accounts for its file listing and, where it has metadata, for
/// its narinfo and for the file that its URL leads to, whatever that is called; and no other does.
pub proof fn a_reachable_store_path_accounts_for_its_files(
    infos: spec_fn(Seq<u8>) -> Option<NarInfoView>,
    roots: Seq<Seq<u8>>,
    dir: SweptDir,
    name: Seq<u8>,
)
    ensures
        accounted_for(infos, roots, dir, name) <==> exists|h: Seq<u8>| #[trigger]
            held_on_to(infos, roots, dir, h, name),
{
    lemma_suffixes();
    if exists|h: Seq<u8>| #[trigger] held_on_to(infos, roots, dir, h, name) {
        let h = choose|h: Seq<u8>| #[trigger] held_on_to(infos, roots, dir, h, name);
        assert(dep_scan::reachable(infos, roots, h));
    }
    if accounted_for(infos, roots, dir, name) {
        let h = match dir {
            SweptDir::Infos => choose|h: Seq<u8>|
                {
                    &&& #[trigger] dep_scan::reachable(infos, roots, h)
                    &&& name == h + listing_suffix() || (infos(h) is Some && name == h
                        + binary_cache::narinfo_suffix())
                },
            SweptDir::Archives => choose|h: Seq<u8>|
                {
                    &&& #[trigger] dep_scan::reachable(infos, roots, h)
                    &&& infos(h) is Some
                    &&& archive_name(infos(h)->0) == Some(name)
                },
        };
        assert(held_on_to(infos, roots, dir, h, name));
    }
}

/// After a run a file goes exactly where nothing that can be reached holds on to it, and, in the
/// cache directory itself, its name ends with `.narinfo` or `.ls`.
pub proof fn a_run_deletes_what_nothing_holds_on_to(
    infos: spec_fn(Seq<u8>) -> Option<NarInfoView>,
    roots: Seq<Seq<u8>>,
    replies: Seq<Option<NarInfoView>>,
    name: Seq<u8>,
)
    requires
        dep_scan::ends_with(dep_scan::rooted(roots), replies),
        dep_scan::agree(dep_scan::rooted(roots), replies, infos),
    ensures
        ({
            let w = dep_scan::walk(dep_scan::rooted(roots), replies);
            let k = kept(w.asked, w.found);
            &&& is_garbage(k, SweptDir::Infos, name) <==> {
                &&& encode_utf8(".narinfo"@).is_suffix_of(name) || encode_utf8(
                    ".ls"@,
                ).is_suffix_of(name)
                &&& forall|h: Seq<u8>|
                    !#[trigger] held_on_to(infos, roots, SweptDir::Infos, h, name)
            }
            &&& is_garbage(k, SweptDir::Archives, name) <==> forall|h: Seq<u8>|
                !#[trigger] held_on_to(infos, roots, SweptDir::Archives, h, name)
        }),
{
    lemma_suffixes();
    a_run_deletes_exactly_the_garbage(infos, roots, replies, SweptDir::Infos, name);
    a_run_deletes_exactly_the_garbage(infos, roots, replies, SweptDir::Archives, name);
    a_reachable_store_path_accounts_for_its_files(infos, roots, SweptDir::Infos, name);
    a_reachable_store_path_accounts_for_its_files(infos, roots, SweptDir::Archives, name);
}

/// What is kept stays: in the cache directory everything stays that is kept or has another ending
/// than `.narinfo` and `.ls`, and in the directory of archives what is kept. The rest is garbage.
pub proof fn what_is_kept_stays(k: KeepView, name: Seq<u8>)
    ensures
        k.infos.contains(name) ==> !is_garbage(k, SweptDir::Infos, name),
        k.archives.contains(name) <==> !is_garbage(k, SweptDir::Archives, name),
        !k.infos.contains(name + encode_utf8(".narinfo"@)) ==> is_garbage(
            k,
            SweptDir::Infos,
            name + encode_utf8(".narinfo"@),
        ),
        !k.infos.contains(name + encode_utf8(".ls"@)) ==> is_garbage(
            k,
            SweptDir::Infos,
            name + encode_utf8(".ls"@),
        ),
        is_garbage(k, SweptDir::Infos, name) ==> encode_utf8(".narinfo"@).is_suffix_of(name)
            || encode_utf8(".ls"@).is_suffix_of(name),
{
    lemma_suffixes();
    let (a, b) = (encode_utf8(".narinfo"@), encode_utf8(".ls"@));
    let (x, y) = (name + a, name + b);
    assert(x.subrange(x.len() - a.len(), x.len() as int) =~= a);
    assert(y.subrange(y.len() - b.len(), y.len() as int) =~= b);
}

/// A sweep goes through a listing from one end to the other: what is removed of two listings is what
/// is removed of the one and then of the other, and the garbage adds up, as far as the counter can
/// hold it.
pub proof fn a_sweep_goes_through_the_whole_listing(
    k: KeepView,
    dir: SweptDir,
    dry_run: bool,
    a: Seq<(Seq<u8>, Option<u64>)>,
    b: Seq<(Seq<u8>, Option<u64>)>,
)
    ensures
        removed(k, dir, dry_run, a + b) == removed(k, dir, dry_run, a) + removed(
            k,
            dir,
            dry_run,
            b,
        ),
        garbage_size(k, dir, a + b) as nat == (garbage_size(k, dir, a) + garbage_size(k, dir, b))
            % 0x1_0000_0000_0000_0000,
{
    lemma_removed_of_two(k, dir, dry_run, a, b);
    lemma_garbage_of_two(k, dir, a, b);
}

proof fn lemma_removed_of_two(
    k: KeepView,
    dir: SweptDir,
    dry_run: bool,
    a: Seq<(Seq<u8>, Option<u64>)>,
    b: Seq<(Seq<u8>, Option<u64>)>,
)
    ensures
        removed(k, dir, dry_run, a + b) == removed(k, dir, dry_run, a) + removed(
            k,
            dir,
            dry_run,
            b,
        ),
    decreases b.len(),
{
    let (ra, rb) = (removed(k, dir, dry_run, a), removed(k, dir, dry_run, b));
    if b.len() == 0 {
        assert(a + b =~= a);
        assert(ra + rb =~= ra);
    } else {
        let shorter = b.drop_last();
        lemma_removed_of_two(k, dir, dry_run, a, shorter);
        assert((a + b).drop_last() =~= a + shorter);
        assert((a + b).last() == b.last());
        let rs = removed(k, dir, dry_run, shorter);
        let goes = fate_of(k, dir, dry_run, b.last().0) == Fate::Removed;
        assert(goes ==> (ra + rs).push(b.last().0) =~= ra + rs.push(b.last().0));
        assert(rb == if goes {
            rs.push(b.last().0)
        } else {
            rs
        });
    }
}

proof fn lemma_wraps(x: u64, y: u64, z: u64)
    ensures
        ((x + y) % 0x1_0000_0000_0000_0000 + z) % 0x1_0000_0000_0000_0000 == (x + (y + z)
            % 0x1_0000_0000_0000_0000) % 0x1_0000_0000_0000_0000,
        y.wrapping_add(z) as int == (y + z) % 0x1_0000_0000_0000_0000,
{
}

proof fn lemma_garbage_of_two(
    k: KeepView,
    dir: SweptDir,
    a: Seq<(Seq<u8>, Option<u64>)>,
    b: Seq<(Seq<u8>, Option<u64>)>,
)
    ensures
        garbage_size(k, dir, a + b) as nat == (garbage_size(k, dir, a) + garbage_size(k, dir, b))
            % 0x1_0000_0000_0000_0000,
    decreases b.len(),
{
    if b.len() == 0 {
        assert(a + b =~= a);
    } else {
        let shorter = b.drop_last();
        lemma_garbage_of_two(k, dir, a, shorter);
        assert((a + b).drop_last() =~= a + shorter);
        assert((a + b).last() == b.last());
        let (x, y) = (garbage_size(k, dir, a), garbage_size(k, dir, shorter));
        let z = size_or_zero(b.last().1);
        lemma_wraps(x, y, z);
        lemma_wraps(x, garbage_size(k, dir, a + shorter), z);
    }
}

/// A file is removed exactly where it is garbage and the run is not dry, whether its size is known
/// or not, and garbage counts with its size, as far as that is known, in either case.
pub proof fn a_sweep_removes_garbage_of_any_size(
    k: KeepView,
    dir: SweptDir,
    dry_run: bool,
    name: Seq<u8>,
    size: Option<u64>,
)
    ensures
        removed(k, dir, dry_run, seq![(name, size)]) == (if is_garbage(k, dir, name) && !dry_run {
            seq![name]
        } else {
            Seq::empty()
        }),
        garbage_size(k, dir, seq![(name, size)]) == (match size {
            Some(n) if is_garbage(k, dir, name) => n,
            _ => 0,
        }),
{
    reveal_with_fuel(removed, 2);
    reveal_with_fuel(garbage_size, 2);
    let one = seq![(name, size)];
    assert(one.drop_last() =~= Seq::<(Seq<u8>, Option<u64>)>::empty());
    assert(removed(k, dir, dry_run, one) =~= (if is_garbage(k, dir, name) && !dry_run {
        seq![name]
    } else {
        Seq::empty()
    }));
}

/// Each file meets one fate: it stays unless it is garbage, and garbage is removed unless the run
/// is dry.
pub proof fn garbage_is_spared_in_a_dry_run_alone(
    k: KeepView,
    dir: SweptDir,
    dry_run: bool,
    name: Seq<u8>,
)
    ensures
        fate_of(k, dir, dry_run, name) == Fate::Kept <==> !is_garbage(k, dir, name),
        fate_of(k, dir, dry_run, name) == Fate::Removed <==> is_garbage(k, dir, name) && !dry_run,
        fate_of(k, dir, true, name) == Fate::Kept <==> fate_of(k, dir, false, name) == Fate::Kept,
{
}

/// A run rewrites the closure cache, with everything that it found, exactly where it is not dry.
pub proof fn only_a_dry_run_leaves_the_closure_cache(
    plan: Plan,
    config: Config,
    walk: dep_scan::Walk,
)
    requires
        plans(plan, config, walk),
    ensures
        plan.closures is None <==> config.dry_run,
        plan.closures matches Some(rewrite) ==> {
            &&& rewrite.contents@ == closure_cache::file_bytes(walk.found)
            &&& rewrite.file@ == path::joined(
                config.cache_dir@,
                encode_utf8(".kiss-cache.closures"@),
            )
        },
        plan.keep@ == kept(walk.asked, walk.found),
{
}

/// A listing is taken as it is.
pub proof fn a_listing_is_taken_whole(files: Seq<(Vec<u8>, Option<u64>)>, k: int)
    ensures
        listing(files).len() == files.len(),
        0 <= k < files.len() ==> listing(files)[k] == (files[k].0@, files[k].1),
{
}

/// A store path is noted exactly where it has metadata and its URL leads to no file.
pub proof fn store_paths_without_an_archive_are_noted(
    hashes: Seq<Seq<u8>>,
    infos: Seq<(Seq<u8>, NarInfoView)>,
    h: Seq<u8>,
)
    ensures
        kept(hashes, infos).malformed.contains(h) <==> exists|k: int|
            0 <= k < infos.len() && (#[trigger] infos[k]).0 == h && forall|n: Seq<u8>|
                !#[trigger] url_leads_to(infos[k].1, n),
    decreases infos.len(),
{
    what_is_kept_adds_up(hashes, infos);
    let all = kept_with_info(infos).malformed;
    assert(kept(Seq::empty(), infos).malformed == all);
    if infos.len() > 0 {
        let shorter = infos.drop_last();
        let last = infos[infos.len() - 1];
        let before = kept_with_info(shorter);
        store_paths_without_an_archive_are_noted(hashes, shorter, h);
        what_is_kept_adds_up(hashes, shorter);
        assert(kept(Seq::empty(), shorter).malformed == before.malformed);
        keeping_keeps_what_a_url_leads_to(before, last.0, last.1, h);
        if before.malformed.contains(h) {
            let j = choose|j: int| 0 <= j < before.malformed.len() && before.malformed[j] == h;
            assert(all[j] == h);
            let k = choose|k: int|
                0 <= k < shorter.len() && (#[trigger] shorter[k]).0 == h && forall|n: Seq<u8>|
                    !#[trigger] url_leads_to(shorter[k].1, n);
            assert(infos[k] == shorter[k]);
        }
        if all.len() > before.malformed.len() {
            assert(all.last() == last.0);
            if all.contains(h) && !before.malformed.contains(h) {
                let j = choose|j: int| 0 <= j < all.len() && all[j] == h;
                assert(j == before.malformed.len());
            }
        }
        if exists|k: int|
            0 <= k < infos.len() && (#[trigger] infos[k]).0 == h && forall|n: Seq<u8>|
                !#[trigger] url_leads_to(infos[k].1, n) {
            let k = choose|k: int|
                0 <= k < infos.len() && (#[trigger] infos[k]).0 == h && forall|n: Seq<u8>|
                    !#[trigger] url_leads_to(infos[k].1, n);
            if k < shorter.len() {
                assert(shorter[k] == infos[k]);
            }
        }
    }
}

/// Store paths are kept one by one and in their order: one more keeps its own files besides those
/// that are kept without it, and one more listing is just that.
pub proof fn store_paths_are_kept_one_by_one(
    hashes: Seq<Seq<u8>>,
    infos: Seq<(Seq<u8>, NarInfoView)>,
    hash: Seq<u8>,
    info: NarInfoView,
)
    ensures
        kept(Seq::empty(), infos.push((hash, info))) == keeping(
            kept(Seq::empty(), infos),
            hash,
            info,
        ),
        kept(hashes.push(hash), infos) == (KeepView {
            infos: kept(hashes, infos).infos.insert(hash + encode_utf8(".ls"@)),
            ..kept(hashes, infos)
        }),
        kept(Seq::empty(), Seq::empty()) == (KeepView {
            infos: Set::empty(),
            archives: Set::empty(),
            file_size: 0,
            nar_size: 0,
            malformed: Seq::empty(),
        }),
{
    reveal_strlit(".ls");
    is_ascii_chars_encode_utf8(".ls"@);
    assert(encode_utf8(".ls"@) =~= listing_suffix());
    assert(infos.push((hash, info)).drop_last() =~= infos);
    assert(hashes.push(hash).drop_last() =~= hashes);
}

/// A plan holds the whole closure: each hash that was asked for and all that was found, in order.
/// While the closure cache is rewritten its new contents lie in a file beside it.
pub proof fn a_plan_holds_the_whole_closure(plan: Plan, config: Config, walk: dep_scan::Walk)
    requires
        plans(plan, config, walk),
    ensures
        binary_cache::hashes(plan.closure.hashes@) == walk.asked,
        closure_cache::entries(plan.closure.infos@) == walk.found,
        plan.closures matches Some(rewrite) ==> rewrite.temp@ == path::joined(
            config.cache_dir@,
            encode_utf8(".kiss-cache.closures.tmp"@),
        ),
{
}

} // verus!
