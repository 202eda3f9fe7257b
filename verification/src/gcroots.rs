//! Garbage collection roots: symbolic links into the store, and marker files that name store
//! paths.

use crate::path;
use crate::path::{absolute, join, key_of, last_name, parent_dir, split_path};
use crate::byte_set::ByteSet;
use crate::store_hash;
use crate::store_hash::{is_in_store, StoreHash};
use crate::binary_cache;
use crate::text;
use crate::text::{append_run, lines};
use std::collections::VecDeque;
use vstd::prelude::*;
use vstd::slice::{slice_subrange, slice_to_vec};
use vstd::utf8::*;

verus! {

// ---------------------------------------------------------------------------------------------
// The model
// ---------------------------------------------------------------------------------------------
/// Which directories wait to be walked, the keys of all that ever did, and which store paths are
/// roots.
#[verifier::ext_equal]
pub struct RootsState {
    pub queue: Seq<Seq<u8>>,
    pub seen: Set<Seq<u8>>,
    pub store_paths: Seq<Seq<u8>>,
}

/// Nothing has been found.
pub open spec fn no_roots() -> RootsState {
    RootsState { queue: Seq::empty(), seen: Set::empty(), store_paths: Seq::empty() }
}

/// Whether a path is in a list, whatever way it is written.
pub open spec fn has_path(list: Seq<Seq<u8>>, p: Seq<u8>) -> bool {
    exists|k: int| 0 <= k < list.len() && path::same_path(#[trigger] list[k], p)
}

/// The store path that `p` is or lies in: `/nix/store` and one component more.
pub open spec fn store_root(p: Seq<u8>) -> Seq<u8> {
    if path::component_spans(p).len() > 3 {
        path::first_components(p, 3)
    } else {
        p
    }
}

/// A store path becomes a root, unless it is one.
pub open spec fn with_store_path(st: RootsState, p: Seq<u8>) -> RootsState {
    if has_path(st.store_paths, store_root(p)) {
        st
    } else {
        RootsState { store_paths: st.store_paths.push(store_root(p)), ..st }
    }
}

/// A path in the store becomes a root; any other waits to be walked, unless it already did.
pub open spec fn with_path(st: RootsState, p: Seq<u8>) -> RootsState {
    if store_hash::in_store(p) {
        with_store_path(st, p)
    } else if st.seen.contains(path::path_key(p)) {
        st
    } else {
        RootsState { queue: st.queue.push(p), seen: st.seen.insert(path::path_key(p)), ..st }
    }
}

/// Where a symbolic link leads: a relative target is meant from the directory of the link.
pub open spec fn link_target(link: Seq<u8>, target: Seq<u8>) -> Seq<u8> {
    match path::parent(link) {
        Some(dir) => if path::is_absolute(target) {
            target
        } else {
            path::joined(dir, target)
        },
        None => target,
    }
}

/// The lines of a marker file.
pub open spec fn marker_lines(contents: Seq<u8>) -> Seq<Seq<u8>> {
    text::line_spans(contents, 0x0au8, 0x0du8).map_values(
        |q: (int, int)| text::span(contents, q),
    )
}

/// Each line that is a store path becomes a root; the others are ignored.
pub open spec fn with_lines(st: RootsState, lines: Seq<Seq<u8>>) -> RootsState
    decreases lines.len(),
{
    if lines.len() == 0 {
        st
    } else {
        let before = with_lines(st, lines.drop_last());
        if store_hash::store_path_hash(lines.last()) is Some {
            with_store_path(before, lines.last())
        } else {
            before
        }
    }
}

/// The bytes of `/nix/store/`.
pub open spec fn store_dir() -> Seq<u8> {
    seq![0x2fu8, 0x6e, 0x69, 0x78, 0x2f, 0x73, 0x74, 0x6f, 0x72, 0x65, 0x2f]
}

/// A file that is itself called `<hash>-<name>` makes that store path a root.
pub open spec fn with_name(st: RootsState, file: Seq<u8>) -> RootsState {
    match path::file_name(file) {
        Some(name) => if store_hash::hash_prefix(name) is Some {
            with_store_path(st, store_dir() + name)
        } else {
            st
        },
        None => st,
    }
}

/// What a walk over a directory comes upon.
pub enum Entry {
    /// A symbolic link with its target.
    Link(Vec<u8>),
    /// A plain file with its contents.
    File(Vec<u8>),
    /// Anything else.
    Other,
}

/// What an entry at `file` adds to the roots.
pub open spec fn with_entry(st: RootsState, file: Seq<u8>, entry: Entry) -> RootsState {
    match entry {
        Entry::Link(target) => with_path(st, link_target(file, target@)),
        Entry::File(contents) => with_name(with_lines(st, marker_lines(contents@)), file),
        Entry::Other => st,
    }
}

/// The hashes of those store paths that have one, in order.
pub open spec fn root_hashes_of(paths: Seq<Seq<u8>>) -> Seq<Seq<u8>>
    decreases paths.len(),
{
    if paths.len() == 0 {
        Seq::empty()
    } else {
        let rest = root_hashes_of(paths.drop_last());
        match store_hash::store_path_hash(paths.last()) {
            Some(h) => rest.push(h),
            None => rest,
        }
    }
}

/// Whether a walk leaves out an entry of this name. What the walk begins with is never left out;
/// below it, names that begin with a dot are.
pub open spec fn is_skipped(depth: nat, name: Seq<u8>) -> bool {
    depth > 0 && name.len() > 0 && name[0] == path::DOT
}

/// Whether a walk leaves out an entry.
pub fn skips(depth: usize, name: &[u8]) -> (r: bool)
    ensures
        r == is_skipped(depth as nat, name@),
{
    depth > 0 && name.len() > 0 && name[0] == path::DOT
}

/// Where a symbolic link leads.
pub fn resolve_link(link: &[u8], target: &[u8]) -> (r: Vec<u8>)
    ensures
        r@ == link_target(link@, target@),
{
    if absolute(target) {
        return slice_to_vec(target);
    }
    match parent_dir(link) {
        Some(dir) => join(dir.as_slice(), target),
        None => slice_to_vec(target),
    }
}

// ---------------------------------------------------------------------------------------------
// The collection
// ---------------------------------------------------------------------------------------------
/// A directory to walk, with how far the search is: how many directories it has taken up, and
/// how many it has met.
pub struct RootStep {
    pub path: Vec<u8>,
    pub position: u64,
    pub length: u64,
}

/// Collects garbage collection roots.
pub struct GcRoots {
    queue: VecDeque<Vec<u8>>,
    seen: ByteSet,
    store_paths: Vec<Vec<u8>>,
    store_keys: ByteSet,
}

impl View for GcRoots {
    type V = RootsState;

    closed spec fn view(&self) -> RootsState {
        RootsState {
            queue: path::paths_view(self.queue@),
            seen: self.seen@,
            store_paths: path::paths_view(self.store_paths@),
        }
    }
}

/// Whether `keys` holds the keys of the paths in `list`.
spec fn keys_of(keys: Set<Seq<u8>>, list: Seq<Seq<u8>>) -> bool {
    forall|p: Seq<u8>| #[trigger] keys.contains(path::path_key(p)) <==> has_path(list, p)
}

impl GcRoots {
    /// The store paths can be found by their keys, and no more directories wait than were met.
    pub closed spec fn wf(&self) -> bool {
        &&& keys_of(self.store_keys@, self@.store_paths)
        &&& self@.seen.finite()
        &&& self@.queue.len() <= self@.seen.len()
    }

    /// A collection without roots.
    pub fn new() -> (r: Self)
        ensures
            r@ == no_roots(),
            r.wf(),
    {
        let r = GcRoots {
            queue: VecDeque::new(),
            seen: ByteSet::new(),
            store_paths: Vec::new(),
            store_keys: ByteSet::new(),
        };
        assert(r@ =~= no_roots());
        r
    }

    /// Makes the store path that `path` is or lies in a root.
    pub fn add_store_path(&mut self, path: &[u8])
        requires
            old(self).wf(),
        ensures
            final(self)@ == with_store_path(old(self)@, path@),
            final(self).wf(),
    {
        let cs = split_path(path);
        assert(text::spans(cs@).len() == cs@.len());
        let root = if cs.len() > 3 {
            proof {
                path::lemma_component_bounds(path@);
                assert(path::component_spans(path@)[2] == (cs@[2].0 as int, cs@[2].1 as int));
            }
            let part = slice_subrange(path, 0, cs[2].1);
            assert(part@ =~= store_root(path@));
            part
        } else {
            path
        };
        let key = key_of(root);
        let ghost keys = self.store_keys@;
        let ghost list = self@.store_paths;
        assert(keys.contains(path::path_key(root@)) <==> has_path(list, root@));
        if self.store_keys.insert(key.as_slice()) {
            self.store_paths.push(slice_to_vec(root));
            proof {
                let longer = list.push(root@);
                assert(self@.store_paths =~= longer);
                lemma_keys_push(keys, list, root@);
            }
        } else {
            assert(self.store_keys@ =~= keys);
        }
        assert(self@ =~= with_store_path(old(self)@, path@));
    }

    /// Takes a path into account: one in the store is a root, any other is a directory to walk.
    pub fn enqueue(&mut self, path: &[u8])
        requires
            old(self).wf(),
        ensures
            final(self)@ == with_path(old(self)@, path@),
            final(self).wf(),
    {
        if is_in_store(path) {
            self.add_store_path(path);
        } else {
            let key = key_of(path);
            if self.seen.insert(key.as_slice()) {
                self.queue.push_back(slice_to_vec(path));
            }
            assert(self@ =~= with_path(old(self)@, path@));
        }
    }

    /// Takes the next directory to walk; there is none once all of them have been.
    pub fn next_step(&mut self) -> (r: Option<RootStep>)
        requires
            old(self).wf(),
        ensures
            match r {
                Some(step) => {
                    &&& old(self)@.queue.len() > 0
                    &&& step.path@ == old(self)@.queue[0]
                    &&& final(self)@ == (RootsState {
                        queue: old(self)@.queue.drop_first(),
                        ..old(self)@
                    })
                    &&& step.position == final(self)@.seen.len() - final(self)@.queue.len()
                    &&& step.length == final(self)@.seen.len()
                },
                None => old(self)@.queue.len() == 0 && final(self)@ == old(self)@,
            },
            final(self).wf(),
    {
        match self.queue.pop_front() {
            Some(path) => {
                assert(self@ =~= (RootsState {
                    queue: old(self)@.queue.drop_first(),
                    ..old(self)@
                }));
                let length: usize = self.seen.len();
                let waiting: usize = self.queue.len();
                Some(
                    RootStep {
                        path,
                        position: (length - waiting) as u64,
                        length: length as u64,
                    },
                )
            },
            None => {
                assert(self@ =~= old(self)@);
                None
            },
        }
    }

    /// Scans an entry of a walk: takes what it names into account.
    pub fn scan(&mut self, file: &[u8], entry: &Entry)
        requires
            old(self).wf(),
        ensures
            final(self)@ == with_entry(old(self)@, file@, *entry),
            final(self).wf(),
    {
        match entry {
            Entry::Link(target) => {
                let path = resolve_link(file, target.as_slice());
                self.enqueue(path.as_slice());
            },
            Entry::File(contents) => {
                self.read_marker(contents.as_slice());
                self.read_name(file);
            },
            Entry::Other => {},
        }
    }

    /// Makes every line that is a store path a root.
    fn read_marker(&mut self, contents: &[u8])
        requires
            old(self).wf(),
        ensures
            final(self)@ == with_lines(old(self)@, marker_lines(contents@)),
            final(self).wf(),
    {
        let all = lines(contents, 0x0a, 0x0d);
        let ghost model = marker_lines(contents@);
        proof {
            text::lemma_line_bounds(contents@, 0x0au8, 0x0du8);
        }
        assert(text::spans(all@).len() == all@.len());
        let mut k: usize = 0;
        assert(model.take(0) =~= Seq::<Seq<u8>>::empty());
        while k < all.len()
            invariant
                k <= all@.len(),
                model == marker_lines(contents@),
                text::spans(all@) == text::line_spans(contents@, 0x0au8, 0x0du8),
                forall|k: int|
                    0 <= k < all@.len() ==> {
                        let q = #[trigger] text::line_spans(contents@, 0x0au8, 0x0du8)[k];
                        0 <= q.0 <= q.1 <= contents@.len()
                    },
                self.wf(),
                self@ == with_lines(old(self)@, model.take(k as int)),
            decreases all@.len() - k,
        {
            let (a, b) = all[k];
            assert(text::line_spans(contents@, 0x0au8, 0x0du8)[k as int] == (a as int, b as int));
            let line = slice_subrange(contents, a, b);
            assert(model.take(k + 1).drop_last() =~= model.take(k as int));
            assert(line@ == model[k as int]);
            if StoreHash::from_store_path(line).is_some() {
                self.add_store_path(line);
            }
            k = k + 1;
        }
        assert(model.take(k as int) =~= model);
    }

    /// Makes the store path that a file is named after a root.
    fn read_name(&mut self, file: &[u8])
        requires
            old(self).wf(),
        ensures
            final(self)@ == with_name(old(self)@, file@),
            final(self).wf(),
    {
        if let Some(name) = last_name(file) {
            if StoreHash::from_prefix(name).is_some() {
                let dir: [u8; 11] = [
                    0x2f,
                    0x6e,
                    0x69,
                    0x78,
                    0x2f,
                    0x73,
                    0x74,
                    0x6f,
                    0x72,
                    0x65,
                    0x2f,
                ];
                assert(dir@ =~= store_dir());
                let mut path = slice_to_vec(dir.as_slice());
                append_run(&mut path, name);
                self.add_store_path(path.as_slice());
            }
        }
    }

    /// The store paths that are roots.
    pub fn store_paths(&self) -> (r: &Vec<Vec<u8>>)
        ensures
            path::paths_view(r@) == self@.store_paths,
    {
        &self.store_paths
    }

    /// The hashes of the roots. Store paths too short to hold one are skipped.
    pub fn root_hashes(&self) -> (r: Vec<StoreHash>)
        ensures
            binary_cache::hashes(r@) == root_hashes_of(self@.store_paths),
    {
        let ghost paths = self@.store_paths;
        let mut out: Vec<StoreHash> = Vec::new();
        let mut k: usize = 0;
        assert(paths.take(0) =~= Seq::<Seq<u8>>::empty());
        assert(binary_cache::hashes(out@) =~= Seq::<Seq<u8>>::empty());
        while k < self.store_paths.len()
            invariant
                paths == path::paths_view(self.store_paths@),
                k <= self.store_paths@.len(),
                binary_cache::hashes(out@) == root_hashes_of(paths.take(k as int)),
            decreases self.store_paths@.len() - k,
        {
            let ghost before = out@;
            assert(paths[k as int] == self.store_paths@[k as int]@);
            assert(paths.take(k + 1).drop_last() =~= paths.take(k as int));
            match StoreHash::from_store_path(self.store_paths[k].as_slice()) {
                Some(h) => {
                    out.push(h);
                    assert(binary_cache::hashes(out@) =~= binary_cache::hashes(before).push(h@));
                },
                None => {},
            }
            k = k + 1;
        }
        assert(paths.take(k as int) =~= paths);
        out
    }
}

impl Default for GcRoots {
    fn default() -> (r: Self)
        ensures
            r@ == no_roots(),
            r.wf(),
    {
        GcRoots::new()
    }
}

proof fn lemma_keys_push(keys: Set<Seq<u8>>, list: Seq<Seq<u8>>, root: Seq<u8>)
    requires
        keys_of(keys, list),
    ensures
        keys_of(keys.insert(path::path_key(root)), list.push(root)),
{
    let longer = list.push(root);
    let more = keys.insert(path::path_key(root));
    assert forall|p: Seq<u8>| #[trigger] more.contains(path::path_key(p)) <==> has_path(
        longer,
        p,
    ) by {
        path::lemma_key_tells_paths_apart(root, p);
        assert(keys.contains(path::path_key(p)) <==> has_path(list, p));
        if has_path(list, p) {
            let k = choose|k: int| 0 <= k < list.len() && path::same_path(#[trigger] list[k], p);
            assert(path::same_path(longer[k], p));
        }
        if path::same_path(root, p) {
            assert(path::same_path(longer[list.len() as int], p));
        }
        if has_path(longer, p) && !path::same_path(root, p) {
            let k = choose|k: int|
                0 <= k < longer.len() && path::same_path(#[trigger] longer[k], p);
            assert(path::same_path(list[k], p));
        }
    }
}

// ---------------------------------------------------------------------------------------------
// Laws
// ---------------------------------------------------------------------------------------------
/// Which hashes an entry of a walk makes roots: that of a link's target, those of the lines of a
/// plain file, and that which the file is named after.
pub open spec fn names_hash(file: Seq<u8>, entry: Entry, h: Seq<u8>) -> bool {
    match entry {
        Entry::Link(target) => store_hash::store_path_hash(link_target(file, target@)) == Some(h),
        Entry::File(contents) => {
            ||| exists|k: int|
                0 <= k < marker_lines(contents@).len() && store_hash::store_path_hash(
                    #[trigger] marker_lines(contents@)[k],
                ) == Some(h)
            ||| path::file_name(file) is Some && store_hash::hash_prefix(
                path::file_name(file)->0,
            ) == Some(h)
        },
        Entry::Other => false,
    }
}

/// A path anywhere inside a store path has the hash of that store path.
pub proof fn cutting_keeps_the_hash(p: Seq<u8>)
    ensures
        store_hash::store_path_hash(store_root(p)) == store_hash::store_path_hash(p),
        store_hash::in_store(store_root(p)) == store_hash::in_store(p),
        path::components(store_root(p)).len() <= 3,
{
    if path::component_spans(p).len() > 3 {
        path::lemma_first_components(p, 3);
    }
}

proof fn lemma_hashes_of_roots(paths: Seq<Seq<u8>>, h: Seq<u8>)
    ensures
        root_hashes_of(paths).contains(h) <==> exists|k: int|
            0 <= k < paths.len() && store_hash::store_path_hash(#[trigger] paths[k]) == Some(h),
    decreases paths.len(),
{
    if paths.len() > 0 {
        let rest = root_hashes_of(paths.drop_last());
        lemma_hashes_of_roots(paths.drop_last(), h);
        assert(paths.last() == paths[paths.len() - 1]);
        if rest.contains(h) {
            let k = choose|k: int|
                0 <= k < paths.drop_last().len() && store_hash::store_path_hash(
                    #[trigger] paths.drop_last()[k],
                ) == Some(h);
            assert(store_hash::store_path_hash(paths[k]) == Some(h));
            let i = choose|i: int| 0 <= i < rest.len() && rest[i] == h;
            assert(root_hashes_of(paths)[i] == h);
        }
        if store_hash::store_path_hash(paths.last()) is Some {
            assert(root_hashes_of(paths).last() == store_hash::store_path_hash(paths.last())->0);
        }
        if exists|k: int|
            0 <= k < paths.len() && store_hash::store_path_hash(#[trigger] paths[k]) == Some(h) {
            let k = choose|k: int|
                0 <= k < paths.len() && store_hash::store_path_hash(#[trigger] paths[k]) == Some(h);
            if k < paths.len() - 1 {
                assert(paths.drop_last()[k] == paths[k]);
            }
        }
    }
}

/// Making a store path a root adds its hash to those of the roots, and no other.
pub proof fn a_store_path_adds_its_hash(st: RootsState, p: Seq<u8>, h: Seq<u8>)
    ensures
        root_hashes_of(with_store_path(st, p).store_paths).contains(h) <==> root_hashes_of(
            st.store_paths,
        ).contains(h) || store_hash::store_path_hash(p) == Some(h),
{
    let paths = st.store_paths;
    let root = store_root(p);
    cutting_keeps_the_hash(p);
    lemma_hashes_of_roots(paths, h);
    if has_path(paths, root) {
        let k = choose|k: int| 0 <= k < paths.len() && path::same_path(#[trigger] paths[k], root);
        assert(store_hash::store_path_hash(paths[k]) == store_hash::store_path_hash(root));
    } else {
        let longer = paths.push(root);
        assert(longer.drop_last() =~= paths);
        assert(longer.last() == root);
        let rest = root_hashes_of(paths);
        if store_hash::store_path_hash(root) is Some {
            let x = store_hash::store_path_hash(root)->0;
            assert(root_hashes_of(longer) == rest.push(x));
            assert(rest.push(x).last() == x);
            if rest.contains(h) {
                let i = choose|i: int| 0 <= i < rest.len() && rest[i] == h;
                assert(rest.push(x)[i] == h);
            }
        }
    }
}

proof fn lemma_lines_add(st: RootsState, lines: Seq<Seq<u8>>, h: Seq<u8>)
    ensures
        root_hashes_of(with_lines(st, lines).store_paths).contains(h) <==> root_hashes_of(
            st.store_paths,
        ).contains(h) || exists|k: int|
            0 <= k < lines.len() && store_hash::store_path_hash(#[trigger] lines[k]) == Some(h),
    decreases lines.len(),
{
    if lines.len() > 0 {
        lemma_lines_add(st, lines.drop_last(), h);
        a_store_path_adds_its_hash(with_lines(st, lines.drop_last()), lines.last(), h);
        assert(lines.last() == lines[lines.len() - 1]);
        if exists|k: int|
            0 <= k < lines.drop_last().len() && store_hash::store_path_hash(
                #[trigger] lines.drop_last()[k],
            ) == Some(h) {
            let k = choose|k: int|
                0 <= k < lines.drop_last().len() && store_hash::store_path_hash(
                    #[trigger] lines.drop_last()[k],
                ) == Some(h);
            assert(store_hash::store_path_hash(lines[k]) == Some(h));
        }
        if exists|k: int|
            0 <= k < lines.len() && store_hash::store_path_hash(#[trigger] lines[k]) == Some(h) {
            let k = choose|k: int|
                0 <= k < lines.len() && store_hash::store_path_hash(#[trigger] lines[k]) == Some(h);
            if k < lines.len() - 1 {
                assert(lines.drop_last()[k] == lines[k]);
            }
        }
    }
}

/// A path in the store directory has the hash that its name begins with.
pub proof fn a_store_path_has_the_hash_of_its_name(name: Seq<u8>)
    requires
        name.len() > 1,
        !name.contains(path::SLASH),
    ensures
        store_hash::store_path_hash(store_dir() + name) == store_hash::hash_prefix(name),
{
    let p = store_dir() + name;
    assert forall|i: int| 11 <= i < p.len() implies #[trigger] p[i] != path::SLASH by {
        assert(p[i] == name[i - 11]);
        assert(name.contains(name[i - 11]));
    }
    text::lemma_last_piece(p, path::SLASH, 11, 11);
    let all = text::pieces(p, path::SLASH);
    assert(all =~= seq![(0int, 0int), (1int, 4int), (5int, 10int), (11int, p.len() as int)]) by {
        reveal_with_fuel(text::pieces_from, 13);
    }
    let keep = |q: (int, int)| path::is_component(p, q);
    assert(text::span(p, (1, 4)) =~= store_hash::nix_name());
    assert(text::span(p, (5, 10)) =~= store_hash::store_name());
    assert(text::span(p, (11, p.len() as int)) =~= name);
    assert(all.filter(keep) =~= seq![(1int, 4int), (5int, 10int), (11int, p.len() as int)]) by {
        reveal(Seq::filter);
        reveal_with_fuel(Seq::filter, 5);
        assert(all.drop_last() =~= seq![(0int, 0int), (1int, 4int), (5int, 10int)]);
        assert(all.drop_last().drop_last() =~= seq![(0int, 0int), (1int, 4int)]);
        assert(all.drop_last().drop_last().drop_last() =~= seq![(0int, 0int)]);
        assert(keep((1, 4)));
        assert(keep((5, 10)));
        assert(keep((11, p.len() as int)));
        assert(!keep((0, 0)));
    }
    assert(path::components(p) =~= seq![store_hash::nix_name(), store_hash::store_name(), name]);
}

/// An entry of a walk adds exactly the hashes that it names: nothing is forgotten, and nothing
/// else becomes a root.
pub proof fn an_entry_adds_the_hashes_it_names(
    st: RootsState,
    file: Seq<u8>,
    entry: Entry,
    h: Seq<u8>,
)
    ensures
        root_hashes_of(with_entry(st, file, entry).store_paths).contains(h) <==> root_hashes_of(
            st.store_paths,
        ).contains(h) || names_hash(file, entry, h),
{
    match entry {
        Entry::Link(target) => {
            a_store_path_adds_its_hash(st, link_target(file, target@), h);
        },
        Entry::File(contents) => {
            let lines = marker_lines(contents@);
            let between = with_lines(st, lines);
            lemma_lines_add(st, lines, h);
            if let Some(name) = path::file_name(file) {
                if store_hash::hash_prefix(name) is Some {
                    path::lemma_component_names(file);
                    let cs = path::components(file);
                    assert(cs[cs.len() - 1] == name);
                    a_store_path_has_the_hash_of_its_name(name);
                    a_store_path_adds_its_hash(between, store_dir() + name, h);
                }
            }
        },
        Entry::Other => {},
    }
}

/// What the entries of a walk add to the roots, one after another.
pub open spec fn with_entries(st: RootsState, entries: Seq<(Seq<u8>, Entry)>) -> RootsState
    decreases entries.len(),
{
    if entries.len() == 0 {
        st
    } else {
        with_entry(
            with_entries(st, entries.drop_last()),
            entries.last().0,
            entries.last().1,
        )
    }
}

/// A walk finds exactly the roots that its entries name, whatever their order.
pub proof fn a_walk_finds_the_roots_it_meets(
    st: RootsState,
    entries: Seq<(Seq<u8>, Entry)>,
    h: Seq<u8>,
)
    ensures
        root_hashes_of(with_entries(st, entries).store_paths).contains(h) <==> root_hashes_of(
            st.store_paths,
        ).contains(h) || exists|k: int|
            0 <= k < entries.len() && names_hash((#[trigger] entries[k]).0, entries[k].1, h),
    decreases entries.len(),
{
    if entries.len() > 0 {
        let shorter = entries.drop_last();
        let last = entries[entries.len() - 1];
        a_walk_finds_the_roots_it_meets(st, shorter, h);
        an_entry_adds_the_hashes_it_names(with_entries(st, shorter), last.0, last.1, h);
        if exists|k: int|
            0 <= k < shorter.len() && names_hash((#[trigger] shorter[k]).0, shorter[k].1, h) {
            let k = choose|k: int|
                0 <= k < shorter.len() && names_hash((#[trigger] shorter[k]).0, shorter[k].1, h);
            assert(entries[k] == shorter[k]);
        }
        if exists|k: int|
            0 <= k < entries.len() && names_hash((#[trigger] entries[k]).0, entries[k].1, h) {
            let k = choose|k: int|
                0 <= k < entries.len() && names_hash((#[trigger] entries[k]).0, entries[k].1, h);
            if k < shorter.len() {
                assert(shorter[k] == entries[k]);
            }
        }
    }
}

/// Meeting a path again, however it is written, changes nothing: no root is listed twice, and no
/// directory is walked twice.
pub proof fn a_path_counts_once(st: RootsState, p: Seq<u8>, q: Seq<u8>)
    requires
        path::same_path(p, q),
    ensures
        with_path(with_path(st, p), q) == with_path(st, p),
{
    let once = with_path(st, p);
    path::lemma_key_tells_paths_apart(p, q);
    if store_hash::in_store(p) {
        assert(path::component_spans(p).len() == path::components(p).len());
        assert(path::component_spans(q).len() == path::components(q).len());
        if path::component_spans(p).len() > 3 {
            path::lemma_first_components(p, 3);
            path::lemma_first_components(q, 3);
        }
        assert(path::same_path(store_root(p), store_root(q)));
        if has_path(st.store_paths, store_root(p)) {
            let k = choose|k: int|
                0 <= k < st.store_paths.len() && path::same_path(
                    #[trigger] st.store_paths[k],
                    store_root(p),
                );
            assert(path::same_path(once.store_paths[k], store_root(q)));
        } else {
            let k = st.store_paths.len() as int;
            assert(path::same_path(once.store_paths[k], store_root(q)));
        }
    }
}

/// The keys of paths.
pub open spec fn keys_of_paths(paths: Seq<Seq<u8>>) -> Seq<Seq<u8>> {
    paths.map_values(|p: Seq<u8>| path::path_key(p))
}

/// Whether every directory that was met has been walked or waits, and no two of them are the same.
pub open spec fn walked_or_waiting(st: RootsState, walked: Seq<Seq<u8>>) -> bool {
    let keys = keys_of_paths(walked + st.queue);
    &&& keys.no_duplicates()
    &&& forall|key: Seq<u8>| #[trigger] st.seen.contains(key) <==> keys.contains(key)
}

/// A directory that is met waits until it is walked, and waits once.
pub proof fn a_path_that_is_met_waits(st: RootsState, walked: Seq<Seq<u8>>, p: Seq<u8>)
    requires
        walked_or_waiting(st, walked),
    ensures
        walked_or_waiting(with_path(st, p), walked),
{
    let next = with_path(st, p);
    if next.queue != st.queue {
        let keys = keys_of_paths(walked + st.queue);
        let longer = keys_of_paths(walked + next.queue);
        assert(longer =~= keys.push(path::path_key(p)));
        assert forall|key: Seq<u8>| #[trigger] next.seen.contains(key) <==> longer.contains(key) by {
            if keys.contains(key) {
                let j = choose|j: int| 0 <= j < keys.len() && keys[j] == key;
                assert(longer[j] == key);
            }
            if longer.contains(key) && key != path::path_key(p) {
                let j = choose|j: int| 0 <= j < longer.len() && longer[j] == key;
                assert(keys[j] == key);
            }
            assert(longer.last() == path::path_key(p));
        }
        assert forall|a: int, b: int|
            0 <= a < longer.len() && 0 <= b < longer.len() && a != b implies longer[a]
            != longer[b] by {
            if a < keys.len() {
                assert(keys.contains(keys[a]));
            }
            if b < keys.len() {
                assert(keys.contains(keys[b]));
            }
        }
    }
}

proof fn lemma_lines_leave_directories(st: RootsState, lines: Seq<Seq<u8>>)
    ensures
        with_lines(st, lines).queue == st.queue,
        with_lines(st, lines).seen == st.seen,
    decreases lines.len(),
{
    if lines.len() > 0 {
        lemma_lines_leave_directories(st, lines.drop_last());
    }
}

/// What an entry names waits until it is walked, and waits once.
pub proof fn an_entry_makes_its_directory_wait(
    st: RootsState,
    walked: Seq<Seq<u8>>,
    file: Seq<u8>,
    entry: Entry,
)
    requires
        walked_or_waiting(st, walked),
    ensures
        walked_or_waiting(with_entry(st, file, entry), walked),
{
    match entry {
        Entry::Link(target) => a_path_that_is_met_waits(st, walked, link_target(file, target@)),
        Entry::File(contents) => lemma_lines_leave_directories(st, marker_lines(contents@)),
        Entry::Other => {},
    }
}

/// The search goes through the directories one by one, and once none waits, every directory that
/// was ever met has been walked, exactly once.
pub proof fn every_directory_is_walked_once(st: RootsState, walked: Seq<Seq<u8>>, p: Seq<u8>)
    requires
        walked_or_waiting(st, walked),
    ensures
        walked_or_waiting(no_roots(), Seq::empty()),
        st.queue.len() > 0 ==> walked_or_waiting(
            RootsState { queue: st.queue.drop_first(), ..st },
            walked.push(st.queue[0]),
        ),
        st.queue.len() == 0 ==> (st.seen.contains(path::path_key(p)) <==> has_path(walked, p)),
        st.queue.len() == 0 ==> keys_of_paths(walked).no_duplicates(),
{
    assert(keys_of_paths(Seq::<Seq<u8>>::empty() + no_roots().queue) =~= Seq::<Seq<u8>>::empty());
    if st.queue.len() > 0 {
        assert(walked.push(st.queue[0]) + st.queue.drop_first() =~= walked + st.queue);
    } else {
        let keys = keys_of_paths(walked);
        assert(walked + st.queue =~= walked);
        if keys.contains(path::path_key(p)) {
            let k = choose|k: int| 0 <= k < keys.len() && keys[k] == path::path_key(p);
            path::lemma_key_tells_paths_apart(walked[k], p);
        }
        if has_path(walked, p) {
            let k = choose|k: int|
                0 <= k < walked.len() && path::same_path(#[trigger] walked[k], p);
            path::lemma_key_tells_paths_apart(walked[k], p);
            assert(keys[k] == path::path_key(p));
        }
    }
}

/// What happens in a search for roots.
pub enum SearchEvent {
    /// A path is given to begin with.
    Given(Seq<u8>),
    /// The directory that has waited longest is taken up.
    TakenUp,
    /// A walk comes upon an entry.
    Met(Seq<u8>, Entry),
}

/// A search: its state, and the directories that it has taken up.
#[verifier::ext_equal]
pub struct Search {
    pub state: RootsState,
    pub walked: Seq<Seq<u8>>,
}

/// A search after one more event.
pub open spec fn search_on(s: Search, event: SearchEvent) -> Search {
    match event {
        SearchEvent::Given(p) => Search { state: with_path(s.state, p), ..s },
        SearchEvent::TakenUp => if s.state.queue.len() == 0 {
            s
        } else {
            Search {
                state: RootsState { queue: s.state.queue.drop_first(), ..s.state },
                walked: s.walked.push(s.state.queue[0]),
            }
        },
        SearchEvent::Met(file, entry) => Search { state: with_entry(s.state, file, entry), ..s },
    }
}

/// A search from its beginning, after these events.
pub open spec fn searched(events: Seq<SearchEvent>) -> Search
    decreases events.len(),
{
    if events.len() == 0 {
        Search { state: no_roots(), walked: Seq::empty() }
    } else {
        search_on(searched(events.drop_last()), events.last())
    }
}

/// Whether an event makes a hash a root: a path with that hash is given, or an entry names it.
pub open spec fn event_names(event: SearchEvent, h: Seq<u8>) -> bool {
    match event {
        SearchEvent::Given(p) => store_hash::store_path_hash(p) == Some(h),
        SearchEvent::TakenUp => false,
        SearchEvent::Met(file, entry) => names_hash(file, entry, h),
    }
}

/// The directory that an event leads to: a path that is given, or the target of a link, if it is
/// not in the store.
pub open spec fn event_leads_to(event: SearchEvent) -> Option<Seq<u8>> {
    let p = match event {
        SearchEvent::Given(p) => Some(p),
        SearchEvent::Met(file, Entry::Link(target)) => Some(link_target(file, target@)),
        _ => None,
    };
    match p {
        Some(p) => if store_hash::in_store(p) {
            None
        } else {
            Some(p)
        },
        None => None,
    }
}

/// Whether an event leads to a directory, whatever way it is written.
pub open spec fn event_leads_here(event: SearchEvent, p: Seq<u8>) -> bool {
    event_leads_to(event) is Some && path::same_path(event_leads_to(event)->0, p)
}

/// A search, as long as it may be, finds exactly the roots that it is given or meets: a hash is
/// that of a root if and only if a path with that hash was given, or an entry that was met names
/// it.
pub proof fn a_search_finds_the_roots_it_meets(events: Seq<SearchEvent>, h: Seq<u8>)
    ensures
        root_hashes_of(searched(events).state.store_paths).contains(h) <==> exists|k: int|
            0 <= k < events.len() && event_names(#[trigger] events[k], h),
    decreases events.len(),
{
    if events.len() > 0 {
        let shorter = events.drop_last();
        let last = events[events.len() - 1];
        let before = searched(shorter).state;
        a_search_finds_the_roots_it_meets(shorter, h);
        match last {
            SearchEvent::Given(p) => a_store_path_adds_its_hash(before, p, h),
            SearchEvent::TakenUp => {},
            SearchEvent::Met(file, entry) => {
                an_entry_adds_the_hashes_it_names(before, file, entry, h);
            },
        }
        if exists|k: int| 0 <= k < shorter.len() && event_names(#[trigger] shorter[k], h) {
            let k = choose|k: int| 0 <= k < shorter.len() && event_names(#[trigger] shorter[k], h);
            assert(events[k] == shorter[k]);
        }
        if exists|k: int| 0 <= k < events.len() && event_names(#[trigger] events[k], h) {
            let k = choose|k: int| 0 <= k < events.len() && event_names(#[trigger] events[k], h);
            if k < shorter.len() {
                assert(shorter[k] == events[k]);
            }
        }
    }
}

/// In a search, every directory that was met has been taken up or waits.
proof fn lemma_search_goes_on(events: Seq<SearchEvent>)
    ensures
        walked_or_waiting(searched(events).state, searched(events).walked),
    decreases events.len(),
{
    if events.len() == 0 {
        assert(keys_of_paths(Seq::<Seq<u8>>::empty() + no_roots().queue)
            =~= Seq::<Seq<u8>>::empty());
    } else {
        let before = searched(events.drop_last());
        lemma_search_goes_on(events.drop_last());
        match events.last() {
            SearchEvent::Given(p) => a_path_that_is_met_waits(before.state, before.walked, p),
            SearchEvent::TakenUp => {
                every_directory_is_walked_once(before.state, before.walked, Seq::empty());
            },
            SearchEvent::Met(file, entry) => {
                an_entry_makes_its_directory_wait(before.state, before.walked, file, entry);
            },
        }
    }
}

/// A search has met exactly the directories that its events lead to.
proof fn lemma_search_has_seen(events: Seq<SearchEvent>, p: Seq<u8>)
    ensures
        searched(events).state.seen.contains(path::path_key(p)) <==> exists|k: int|
            0 <= k < events.len() && event_leads_here(#[trigger] events[k], p),
    decreases events.len(),
{
    if events.len() > 0 {
        let shorter = events.drop_last();
        let last = events[events.len() - 1];
        let before = searched(shorter).state;
        lemma_search_has_seen(shorter, p);
        if let SearchEvent::Met(file, Entry::File(contents)) = last {
            lemma_lines_leave_directories(before, marker_lines(contents@));
        }
        if let Some(dir) = event_leads_to(last) {
            path::lemma_key_tells_paths_apart(dir, p);
        }
        if exists|k: int| 0 <= k < shorter.len() && event_leads_here(#[trigger] shorter[k], p) {
            let k = choose|k: int|
                0 <= k < shorter.len() && event_leads_here(#[trigger] shorter[k], p);
            assert(events[k] == shorter[k]);
        }
        if exists|k: int| 0 <= k < events.len() && event_leads_here(#[trigger] events[k], p) {
            let k = choose|k: int|
                0 <= k < events.len() && event_leads_here(#[trigger] events[k], p);
            if k < shorter.len() {
                assert(shorter[k] == events[k]);
            }
        }
    }
}

/// A search that has come to its end has left out nothing: once no directory waits, it has taken up
/// exactly the directories that were given or that a link which was met leads to, each of them
/// once, and the roots are exactly those that were given or that an entry which was met names.
pub proof fn a_whole_search_leaves_out_nothing(
    events: Seq<SearchEvent>,
    p: Seq<u8>,
    h: Seq<u8>,
)
    requires
        searched(events).state.queue.len() == 0,
    ensures
        root_hashes_of(searched(events).state.store_paths).contains(h) <==> exists|k: int|
            0 <= k < events.len() && event_names(#[trigger] events[k], h),
        has_path(searched(events).walked, p) <==> exists|k: int|
            0 <= k < events.len() && event_leads_here(#[trigger] events[k], p),
        keys_of_paths(searched(events).walked).no_duplicates(),
{
    let end = searched(events);
    a_search_finds_the_roots_it_meets(events, h);
    lemma_search_goes_on(events);
    lemma_search_has_seen(events, p);
    every_directory_is_walked_once(end.state, end.walked, p);
}

/// A path that leads nowhere below the store directory is no root: `/nix/store` itself has no
/// hash.
pub proof fn a_short_store_path_has_no_hash(p: Seq<u8>)
    requires
        path::components(p).len() <= 2,
    ensures
        store_hash::store_path_hash(p) is None,
{
}

/// The hash of a store path depends on no more than what comes before its end.
proof fn lemma_hash_of_beginning(p: Seq<u8>, n: int)
    requires
        store_hash::store_path_hash(p) is Some,
        path::component_spans(p)[2].0 + 32 <= n <= p.len(),
    ensures
        store_hash::store_path_hash(p.take(n)) == store_hash::store_path_hash(p),
{
    let q = p.take(n);
    let cs = path::component_spans(p);
    let (a, b) = cs[2];
    let third = path::components(p)[2];
    path::lemma_component_bounds(p);
    path::lemma_components_ordered(p);
    path::lemma_component_ends(p, 2);
    path::lemma_component_names(p);
    let keep = |x: (int, int)| path::is_component(p, x);
    let keep_part = |x: (int, int)| path::is_component(q, x);
    let all = text::pieces(p, path::SLASH);
    text::lemma_pieces_starts(p, path::SLASH, 0, 0);
    assert(cs.contains(cs[2]));
    all.lemma_filter_contains_rev(keep, cs[2]);
    let at = choose|at: int| 0 <= at < all.len() && all[at] == cs[2];
    assert(cs[1].1 < a);
    assert(p[a - 1] == path::SLASH);
    let head = text::pieces(p.take(a - 1), path::SLASH);
    let (tail, cut) = (
        text::pieces_from(p, path::SLASH, a, a),
        text::pieces_from(q, path::SLASH, a, a),
    );
    text::lemma_pieces_of_part(p, path::SLASH, a - 1, 0, 0);
    assert(q.take(a - 1) =~= p.take(a - 1));
    text::lemma_pieces_of_part(q, path::SLASH, a - 1, 0, 0);
    let e = if b < n {
        b
    } else {
        n
    };
    assert forall|j: int| a <= j < b implies #[trigger] p[j] != path::SLASH by {
        assert(third[j - a] == p[j]);
        assert(third.contains(third[j - a]));
    }
    text::lemma_first_piece(p, path::SLASH, a, a, b);
    text::lemma_first_piece(q, path::SLASH, a, a, e);
    text::lemma_pieces_bounds(p.take(a - 1), path::SLASH, 0, 0);
    Seq::filter_distributes_over_add(head, tail, keep);
    Seq::filter_distributes_over_add(head, cut, keep_part);
    assert forall|k: int| 0 <= k < head.len() implies keep(#[trigger] head[k]) == keep_part(
        head[k],
    ) by {
        assert(text::span(p, head[k]) =~= text::span(q, head[k]));
    }
    path::lemma_same_filter(head, keep, keep_part);
    let kept = head.filter(keep);
    assert(keep((a, b)));
    assert(keep_part((a, e))) by {
        assert(text::span(q, (a, e)).len() >= 32);
    }
    path::lemma_filter_first(tail, keep);
    path::lemma_filter_first(cut, keep_part);
    let ds = path::component_spans(q);
    assert(cs =~= kept + tail.filter(keep));
    assert(ds =~= kept + cut.filter(keep_part));
    assert(kept.len() == 2) by {
        assert(cs[kept.len() as int] == (a, b));
        if kept.len() < 2 {
            assert(cs[kept.len() as int].1 < cs[2].0);
        } else if kept.len() > 2 {
            assert(cs[2].1 < cs[kept.len() as int].0);
        }
    }
    assert forall|k: int| 0 <= k < 2 implies path::components(q)[k] == path::components(p)[k] by {
        assert(kept[k] == cs[k] && kept[k] == ds[k]);
        assert(cs[k].1 < cs[2].0);
        assert(text::span(p, cs[k]) =~= text::span(q, cs[k]));
    }
    assert(ds[2] == (a, e));
    assert(path::components(q)[2].take(32) =~= third.take(32));
}

/// There is no line break before the end of the hash in a store path.
proof fn lemma_hash_comes_first(p: Seq<u8>, i: int)
    requires
        store_hash::store_path_hash(p) is Some,
        0 <= i < path::component_spans(p)[2].0 + 32,
    ensures
        p[i] != 0x0a,
        path::component_spans(p)[2].0 + 32 <= p.len(),
        p[path::component_spans(p)[2].0 + 31] != 0x0d,
{
    let cs = path::component_spans(p);
    let h = store_hash::store_path_hash(p)->0;
    let (a, b) = cs[2];
    path::lemma_component_bounds(p);
    path::lemma_components_ordered(p);
    assert forall|j: int| a <= j < a + 32 implies store_hash::is_alphanumeric(#[trigger] p[j]) by {
        assert(h[j - a] == p[j]);
        assert(store_hash::is_alphanumeric(h[j - a]));
    }
    if i < a && p[i] == 0x0a {
        let keep = |x: (int, int)| path::is_component(p, x);
        let all = text::pieces(p, path::SLASH);
        text::lemma_pieces_cover(p, path::SLASH, 0, 0, i);
        text::lemma_pieces_bounds(p, path::SLASH, 0, 0);
        let k = choose|k: int| 0 <= k < all.len() && (#[trigger] all[k]).0 <= i < all[k].1;
        let q = all[k];
        let name = text::span(p, q);
        assert(name[i - q.0] == 0x0a);
        assert(keep(q)) by {
            let dot = seq![path::DOT];
            assert(dot.len() == 1 && dot[0] == path::DOT);
            assert(name != dot);
        }
        all.lemma_filter_contains(keep, k);
        let c = choose|c: int| 0 <= c < cs.len() && cs[c] == q;
        if c >= 2 {
            assert(cs[2].0 <= cs[c].0);
        }
        assert(path::components(p)[c] == name);
    }
}

/// A marker that consists of a store path and a line break makes that store path a root.
pub proof fn a_marker_makes_its_store_path_a_root(
    st: RootsState,
    file: Seq<u8>,
    marker: Vec<u8>,
    store_path: Seq<u8>,
)
    requires
        marker@ == store_path.push(0x0a),
        store_hash::store_path_hash(store_path) is Some,
    ensures
        root_hashes_of(with_entry(st, file, Entry::File(marker)).store_paths).contains(
            store_hash::store_path_hash(store_path)->0,
        ),
{
    let p = store_path;
    let h = store_hash::store_path_hash(p)->0;
    let contents = marker@;
    let end = path::component_spans(p)[2].0 + 32;
    path::lemma_component_bounds(p);
    assert forall|i: int| 0 <= i < end implies #[trigger] contents[i] != 0x0a by {
        lemma_hash_comes_first(p, i);
    }
    lemma_hash_comes_first(p, 0);
    let pieces = text::pieces(contents, 0x0au8);
    text::lemma_pieces_bounds(contents, 0x0au8, 0, 0);
    text::lemma_pieces_starts(contents, 0x0au8, 0, 0);
    text::lemma_pieces_ends(contents, 0x0au8, 0, 0);
    let m = pieces[0].1;
    assert(text::is_piece(contents, 0x0au8, text::pieces_from(contents, 0x0au8, 0, 0)[0]));
    assert(contents[contents.len() - 1] == 0x0a);
    assert(end <= m < contents.len());
    text::lemma_pieces_of_part(contents, 0x0au8, m, 0, 0);
    text::lemma_pieces_bounds(contents.take(m), 0x0au8, 0, 0);
    text::lemma_pieces_bounds(contents, 0x0au8, m + 1, m + 1);
    let lines = marker_lines(contents);
    assert(pieces.len() > 1 && lines.len() > 0);
    let n = if contents[m - 1] == 0x0d {
        m - 1
    } else {
        m
    };
    assert(lines[0] =~= p.take(n));
    lemma_hash_of_beginning(p, n);
    assert(store_hash::store_path_hash(lines[0]) == Some(h));
    an_entry_adds_the_hashes_it_names(st, file, Entry::File(marker), h);
}

// ---------------------------------------------------------------------------------------------
// Laws over entries and their names
// ---------------------------------------------------------------------------------------------
/// A walk has no limit: below where it begins, an entry is left out exactly where its name begins
/// with a dot, however deep it lies, and what it begins with is never left out.
pub proof fn a_walk_leaves_out_dotfiles_alone(
    depth: nat,
    other: nat,
    name: Seq<u8>,
    rest: Seq<u8>,
)
    ensures
        depth > 0 ==> is_skipped(depth, seq![0x2eu8] + rest),
        name.len() == 0 || name[0] != 0x2e ==> !is_skipped(depth, name),
        depth > 0 && other > 0 ==> is_skipped(depth, name) == is_skipped(other, name),
        !is_skipped(0, name),
{
    assert((seq![0x2eu8] + rest)[0] == 0x2e);
}

proof fn lemma_marker_lines(contents: Seq<u8>)
    ensures
        marker_lines(contents) == text::line_texts(contents, 0x0au8, 0x0du8),
{
    assert(marker_lines(contents) =~= text::line_texts(contents, 0x0au8, 0x0du8));
}

/// A marker is read line by line: a line anywhere in it is a line of it, between those of what
/// stands before and those of what stands behind.
pub proof fn a_marker_is_read_line_by_line(before: Seq<u8>, line: Seq<u8>, after: Seq<u8>)
    requires
        before.len() == 0 || before.last() == 0x0a,
        !line.contains(0x0a),
        line.len() == 0 || line.last() != 0x0d,
    ensures
        marker_lines(before + line.push(0x0a) + after) == marker_lines(before) + seq![line]
            + marker_lines(after),
        line.len() > 0 ==> marker_lines(before + line) == marker_lines(before) + seq![line],
        marker_lines(Seq::empty()) == Seq::<Seq<u8>>::empty(),
{
    let all = before + line.push(0x0a) + after;
    let front = before + line;
    assert(all =~= front.push(0x0a) + after);
    text::lines_come_one_after_another(front, after, 0x0au8, 0x0du8);
    text::a_line_ends_at_its_newline(line, 0x0au8, 0x0du8);
    text::a_line_ends_at_its_newline(Seq::<u8>::empty(), 0x0au8, 0x0du8);
    let none = Seq::<Seq<u8>>::empty();
    if before.len() == 0 {
        assert(front =~= line);
        assert(before =~= Seq::<u8>::empty());
        assert(none + seq![line] =~= seq![line]);
    } else {
        let head = before.drop_last();
        assert(before =~= head.push(0x0a));
        assert(front.push(0x0a) =~= head.push(0x0a) + line.push(0x0a));
        assert(front =~= head.push(0x0a) + line);
        text::lines_come_one_after_another(head, line.push(0x0a), 0x0au8, 0x0du8);
        text::lines_come_one_after_another(head, line, 0x0au8, 0x0du8);
    }
    lemma_marker_lines(all);
    lemma_marker_lines(before);
    lemma_marker_lines(after);
    lemma_marker_lines(front);
    lemma_marker_lines(Seq::empty());
}

/// A plain file makes exactly those hashes roots that one of its lines has as a store path, or that
/// its own name begins with.
pub proof fn a_file_makes_roots_of_its_lines_and_its_name(
    st: RootsState,
    file: Seq<u8>,
    contents: Vec<u8>,
    h: Seq<u8>,
)
    ensures
        root_hashes_of(with_entry(st, file, Entry::File(contents)).store_paths).contains(h) <==> {
            ||| root_hashes_of(st.store_paths).contains(h)
            ||| exists|k: int|
                0 <= k < marker_lines(contents@).len() && store_hash::store_path_hash(
                    #[trigger] marker_lines(contents@)[k],
                ) == Some(h)
            ||| path::file_name(file) is Some && store_hash::is_hash(h) && h.is_prefix_of(
                path::file_name(file)->0,
            )
        },
        with_entry(st, file, Entry::File(contents)).queue == st.queue,
        with_entry(st, file, Entry::File(contents)).seen == st.seen,
        with_entry(st, file, Entry::Other) == st,
{
    an_entry_adds_the_hashes_it_names(st, file, Entry::File(contents), h);
    lemma_lines_leave_directories(st, marker_lines(contents@));
    if let Some(name) = path::file_name(file) {
        store_hash::a_name_has_the_hash_that_it_begins_with(name, h);
    }
}

/// A line anywhere in a marker that is a store path makes it a root, whatever else the marker holds
/// and whatever it is called.
pub proof fn a_line_anywhere_in_a_marker_counts(
    st: RootsState,
    file: Seq<u8>,
    contents: Vec<u8>,
    before: Seq<u8>,
    line: Seq<u8>,
    after: Seq<u8>,
)
    requires
        before.len() == 0 || before.last() == 0x0a,
        !line.contains(0x0a),
        line.len() == 0 || line.last() != 0x0d,
        contents@ == before + line.push(0x0a) + after,
        store_hash::store_path_hash(line) is Some,
    ensures
        root_hashes_of(with_entry(st, file, Entry::File(contents)).store_paths).contains(
            store_hash::store_path_hash(line)->0,
        ),
{
    let h = store_hash::store_path_hash(line)->0;
    a_marker_is_read_line_by_line(before, line, after);
    a_file_makes_roots_of_its_lines_and_its_name(st, file, contents, h);
    assert(marker_lines(contents@)[marker_lines(before).len() as int] == line);
}

/// A link leads to its target: to one that begins with a slash as it is, and to any other from the
/// directory that the link is in.
pub proof fn a_link_leads_to_its_target(link: Seq<u8>, target: Seq<u8>)
    ensures
        target.len() > 0 && target[0] == 0x2f ==> link_target(link, target) == target,
        target.len() == 0 || target[0] != 0x2f ==> (match path::parent(link) {
            Some(dir) => {
                &&& target.is_suffix_of(link_target(link, target))
                &&& dir.is_prefix_of(link_target(link, target))
                &&& dir.len() > 0 ==> path::components(link_target(link, target))
                    == path::components(link).drop_last() + path::components(
                    seq![0x2fu8] + target,
                )
                &&& dir.len() == 0 ==> link_target(link, target) == target
            },
            None => link_target(link, target) == target,
        }),
{
    path::a_parent_lacks_the_last_component(link);
    if let Some(dir) = path::parent(link) {
        path::a_path_is_put_under_a_directory(dir, target);
        if dir.len() == 0 {
            assert(dir + target =~= target);
        }
    }
}

/// A path that is met is never lost: one in the store is a root from then on, and any other has
/// been walked before, or waits to be, behind all that waited already. What was there stays.
pub proof fn a_path_that_is_met_is_not_lost(st: RootsState, p: Seq<u8>)
    ensures
        ({
            let next = with_path(st, p);
            &&& store_hash::in_store(p) ==> has_path(next.store_paths, store_root(p)) && next.queue
                == st.queue && next.seen == st.seen
            &&& !store_hash::in_store(p) ==> next.store_paths == st.store_paths
                && next.seen.contains(path::path_key(p))
            &&& !store_hash::in_store(p) && !st.seen.contains(path::path_key(p)) ==> next.queue
                == st.queue.push(p)
            &&& !store_hash::in_store(p) && st.seen.contains(path::path_key(p)) ==> next == st
            &&& st.store_paths.is_prefix_of(next.store_paths)
            &&& next.store_paths.len() <= st.store_paths.len() + 1
            &&& st.seen.subset_of(next.seen)
        }),
{
    let next = with_path(st, p);
    let n = st.store_paths.len() as int;
    assert(next.store_paths.subrange(0, n) =~= st.store_paths);
    if store_hash::in_store(p) && !has_path(st.store_paths, store_root(p)) {
        assert(path::same_path(next.store_paths[n], store_root(p)));
    }
}

/// An entry that is a link has its target met.
pub proof fn the_target_of_a_link_is_met(st: RootsState, file: Seq<u8>, target: Vec<u8>)
    ensures
        ({
            let p = link_target(file, target@);
            let next = with_entry(st, file, Entry::Link(target));
            &&& next == with_path(st, p)
            &&& store_hash::in_store(p) ==> has_path(next.store_paths, store_root(p))
            &&& !store_hash::in_store(p) ==> next.seen.contains(path::path_key(p))
            &&& !store_hash::in_store(p) && !st.seen.contains(path::path_key(p)) ==> next.queue
                == st.queue.push(p)
        }),
{
    a_path_that_is_met_is_not_lost(st, link_target(file, target@));
}

/// The store path that something lies in has its first three components, and is written as it is.
pub proof fn a_store_path_has_three_components(p: Seq<u8>)
    ensures
        store_root(p).is_prefix_of(p),
        path::components(p).len() > 3 ==> path::components(store_root(p)) == path::components(
            p,
        ).take(3),
        path::components(p).len() <= 3 ==> store_root(p) == p,
        path::is_absolute(store_root(p)) == path::is_absolute(p),
{
    assert(path::component_spans(p).len() == path::components(p).len());
    if path::components(p).len() > 3 {
        path::lemma_first_components(p, 3);
        path::lemma_component_bounds(p);
        assert(p.subrange(0, store_root(p).len() as int) =~= store_root(p));
    } else {
        assert(p.subrange(0, p.len() as int) =~= p);
    }
}

/// The roots have the hashes of their store paths, in order: those of two lists are the hashes of
/// the one and then those of the other, and a store path without a hash has none.
pub proof fn roots_have_the_hashes_of_their_store_paths(
    a: Seq<Seq<u8>>,
    b: Seq<Seq<u8>>,
    p: Seq<u8>,
    h: Seq<u8>,
)
    ensures
        root_hashes_of(a + b) == root_hashes_of(a) + root_hashes_of(b),
        root_hashes_of(seq![p]) == (match store_hash::store_path_hash(p) {
            Some(h) => seq![h],
            None => Seq::empty(),
        }),
        root_hashes_of(a).contains(h) <==> exists|k: int|
            0 <= k < a.len() && store_hash::store_path_hash(#[trigger] a[k]) == Some(h),
    decreases b.len(),
{
    lemma_hashes_of_roots(a, h);
    if b.len() == 0 {
        assert(a + b =~= a);
        assert(root_hashes_of(a) + root_hashes_of(b) =~= root_hashes_of(a));
    } else {
        roots_have_the_hashes_of_their_store_paths(a, b.drop_last(), p, h);
        assert((a + b).drop_last() =~= a + b.drop_last());
        assert(root_hashes_of(a + b) =~= root_hashes_of(a) + root_hashes_of(b));
    }
    reveal_with_fuel(root_hashes_of, 2);
    assert(seq![p].drop_last() =~= Seq::<Seq<u8>>::empty());
    assert(root_hashes_of(seq![p]) =~= (match store_hash::store_path_hash(p) {
        Some(h) => seq![h],
        None => Seq::empty(),
    }));
}

/// In a search that has come to its end, nothing that it was given or met is missing: a store path
/// that was given is a root, and so is one that a link leads to or that a line of a file names;
/// and a directory that was given, or that a link leads to, has been walked.
pub proof fn nothing_that_a_search_meets_is_missing(
    events: Seq<SearchEvent>,
    k: int,
    j: int,
    h: Seq<u8>,
)
    requires
        searched(events).state.queue.len() == 0,
        0 <= k < events.len(),
    ensures
        ({
            let end = searched(events);
            let hashes = root_hashes_of(end.state.store_paths);
            match events[k] {
                SearchEvent::Given(p) => {
                    &&& store_hash::store_path_hash(p) == Some(h) ==> hashes.contains(h)
                    &&& !store_hash::in_store(p) ==> has_path(end.walked, p)
                },
                SearchEvent::Met(file, Entry::Link(target)) => {
                    let p = link_target(file, target@);
                    &&& store_hash::store_path_hash(p) == Some(h) ==> hashes.contains(h)
                    &&& !store_hash::in_store(p) ==> has_path(end.walked, p)
                },
                SearchEvent::Met(file, Entry::File(contents)) => {
                    &&& 0 <= j < marker_lines(contents@).len() && store_hash::store_path_hash(
                        marker_lines(contents@)[j],
                    ) == Some(h) ==> hashes.contains(h)
                    &&& path::file_name(file) is Some && store_hash::hash_prefix(
                        path::file_name(file)->0,
                    ) == Some(h) ==> hashes.contains(h)
                },
                _ => true,
            }
        }),
{
    let end = searched(events);
    let p = match events[k] {
        SearchEvent::Given(p) => p,
        SearchEvent::Met(file, Entry::Link(target)) => link_target(file, target@),
        _ => Seq::empty(),
    };
    a_whole_search_leaves_out_nothing(events, p, h);
    path::the_same_path_has_the_same_components(p, p);
    if event_names(events[k], h) {
        assert(event_names(events[k], h));
    }
    if event_leads_here(events[k], p) {
        assert(has_path(end.walked, p));
    }
}

/// Nothing becomes a root, and nothing is walked, that was not given to a search or met by it.
pub proof fn a_search_makes_nothing_up(event: SearchEvent, p: Seq<u8>, h: Seq<u8>)
    ensures
        event_names(event, h) ==> match event {
            SearchEvent::Given(q) => store_hash::store_path_hash(q) == Some(h),
            SearchEvent::TakenUp => false,
            SearchEvent::Met(file, Entry::Link(target)) => store_hash::store_path_hash(
                link_target(file, target@),
            ) == Some(h),
            SearchEvent::Met(file, Entry::File(contents)) => (exists|k: int|
                0 <= k < marker_lines(contents@).len() && store_hash::store_path_hash(
                    #[trigger] marker_lines(contents@)[k],
                ) == Some(h)) || (path::file_name(file) is Some && store_hash::hash_prefix(
                path::file_name(file)->0,
            ) == Some(h)),
            SearchEvent::Met(file, Entry::Other) => false,
        },
        event_leads_here(event, p) ==> match event {
            SearchEvent::Given(q) => path::same_path(q, p) && !store_hash::in_store(q),
            SearchEvent::Met(file, Entry::Link(target)) => path::same_path(
                link_target(file, target@),
                p,
            ) && !store_hash::in_store(link_target(file, target@)),
            _ => false,
        },
{
}

/// A list has a path where one of its entries is the same path.
pub proof fn a_list_has_each_of_its_paths(list: Seq<Seq<u8>>, q: Seq<u8>, p: Seq<u8>)
    ensures
        has_path(list.push(q), p) <==> has_path(list, p) || path::same_path(q, p),
        !has_path(Seq::empty(), p),
{
    let more = list.push(q);
    if has_path(list, p) {
        let k = choose|k: int| 0 <= k < list.len() && path::same_path(#[trigger] list[k], p);
        assert(path::same_path(more[k], p));
    }
    if path::same_path(q, p) {
        assert(path::same_path(more[list.len() as int], p));
    }
    if has_path(more, p) {
        let k = choose|k: int| 0 <= k < more.len() && path::same_path(#[trigger] more[k], p);
        if k < list.len() {
            assert(path::same_path(list[k], p));
        }
    }
}

/// A store path is noted once, behind those that were noted before, and cut behind its third
/// component.
pub proof fn a_store_path_is_noted_once(st: RootsState, p: Seq<u8>)
    ensures
        has_path(st.store_paths, store_root(p)) ==> with_store_path(st, p) == st,
        !has_path(st.store_paths, store_root(p)) ==> with_store_path(st, p).store_paths
            == st.store_paths.push(store_root(p)),
        with_store_path(st, p).queue == st.queue,
        with_store_path(st, p).seen == st.seen,
        with_store_path(with_store_path(st, p), p) == with_store_path(st, p),
        path::components(p).len() > 3 ==> path::components(p)[2].is_suffix_of(store_root(p)),
        no_roots().queue.len() == 0 && no_roots().store_paths.len() == 0,
        !no_roots().seen.contains(p),
{
    a_list_has_each_of_its_paths(st.store_paths, store_root(p), store_root(p));
    path::the_same_path_has_the_same_components(store_root(p), store_root(p));
    path::lemma_component_bounds(p);
    if path::components(p).len() > 3 {
        let q = path::component_spans(p)[2];
        let root = store_root(p);
        assert(text::span(p, q) =~= root.subrange(root.len() - (q.1 - q.0), root.len() as int));
    }
}

/// Markers are split into lines as any text is.
pub proof fn a_marker_is_split_into_lines(contents: Seq<u8>)
    ensures
        marker_lines(contents) == text::line_texts(contents, 0x0au8, 0x0du8),
{
    assert(marker_lines(contents) =~= text::line_texts(contents, 0x0au8, 0x0du8));
}

/// A link that leads to a relative path leads there from the directory that it lies in.
pub proof fn a_relative_link_starts_in_its_directory(link: Seq<u8>, target: Seq<u8>)
    ensures
        path::parent(link) matches Some(dir) ==> link_target(link, target) == path::joined(
            dir,
            target,
        ),
        path::parent(link) is None ==> link_target(link, target) == target,
{
}

/// What lines with a hash add to the store paths.
proof fn lemma_lines_are_noted(st: RootsState, lines: Seq<Seq<u8>>)
    ensures
        ({
            let next = with_lines(st, lines);
            &&& st.store_paths.is_prefix_of(next.store_paths)
            &&& forall|k: int|
                0 <= k < lines.len() && store_hash::store_path_hash(#[trigger] lines[k]) is Some
                    ==> has_path(next.store_paths, store_root(lines[k]))
            &&& forall|j: int|
                st.store_paths.len() <= j < next.store_paths.len() ==> is_noted(
                    lines,
                    #[trigger] next.store_paths[j],
                )
        }),
    decreases lines.len(),
{
    if lines.len() > 0 {
        let fewer = lines.drop_last();
        let before = with_lines(st, fewer);
        let next = with_lines(st, lines);
        lemma_lines_are_noted(st, fewer);
        let root = store_root(lines.last());
        assert forall|p: Seq<u8>| has_path(before.store_paths, p) implies #[trigger] has_path(
            next.store_paths,
            p,
        ) by {
            a_list_has_each_of_its_paths(before.store_paths, root, p);
        }
        a_list_has_each_of_its_paths(before.store_paths, root, root);
        path::the_same_path_has_the_same_components(root, root);
        assert forall|k: int|
            0 <= k < lines.len() && store_hash::store_path_hash(
                #[trigger] lines[k],
            ) is Some implies has_path(next.store_paths, store_root(lines[k])) by {
            if k < fewer.len() {
                assert(fewer[k] == lines[k]);
            }
        }
        assert forall|j: int|
            st.store_paths.len() <= j < next.store_paths.len() implies is_noted(
            lines,
            #[trigger] next.store_paths[j],
        ) by {
            if j < before.store_paths.len() {
                assert(next.store_paths[j] == before.store_paths[j]);
                let k = choose|k: int| noted(fewer, k, before.store_paths[j]);
                assert(noted(lines, k, next.store_paths[j]));
            } else {
                assert(noted(lines, lines.len() - 1, next.store_paths[j]));
            }
        }
        assert(st.store_paths =~= before.store_paths.subrange(0, st.store_paths.len() as int));
        assert(st.store_paths =~= next.store_paths.subrange(0, st.store_paths.len() as int));
    } else {
        assert(st.store_paths =~= st.store_paths.subrange(0, st.store_paths.len() as int));
    }
}

/// Whether the line at `k` has a hash, and is the store path `p` once it is cut.
pub open spec fn noted(lines: Seq<Seq<u8>>, k: int, p: Seq<u8>) -> bool {
    &&& 0 <= k < lines.len()
    &&& store_hash::store_path_hash(lines[k]) is Some
    &&& p == store_root(lines[k])
}

/// Whether a line with a hash is the store path `p` once it is cut.
pub open spec fn is_noted(lines: Seq<Seq<u8>>, p: Seq<u8>) -> bool {
    exists|k: int| noted(lines, k, p)
}

/// A file notes the store path of each of its lines that has a hash, and the one that its name
/// stands for, and no other; those noted before stay in their places.
pub proof fn a_file_notes_its_store_paths(
    st: RootsState,
    file: Seq<u8>,
    contents: Vec<u8>,
    i: int,
)
    ensures
        ({
            let next = with_entry(st, file, Entry::File(contents));
            let lines = marker_lines(contents@);
            let name = path::file_name(file);
            let named = name is Some && store_hash::hash_prefix(name->0) is Some;
            let own = encode_utf8("/nix/store/"@) + name->0;
            &&& st.store_paths.is_prefix_of(next.store_paths)
            &&& 0 <= i < lines.len() && store_hash::store_path_hash(lines[i]) is Some ==> has_path(
                next.store_paths,
                store_root(lines[i]),
            )
            &&& named ==> has_path(next.store_paths, own)
            &&& st.store_paths.len() <= i < next.store_paths.len() ==> is_noted(
                lines,
                next.store_paths[i],
            ) || (named && next.store_paths[i] == own)
        }),
{
    let lines = marker_lines(contents@);
    let read = with_lines(st, lines);
    let next = with_entry(st, file, Entry::File(contents));
    lemma_lines_are_noted(st, lines);
    if let Some(name) = path::file_name(file) {
        if store_hash::hash_prefix(name) is Some {
            path::lemma_component_names(file);
            store_hash::lemma_store_path_spans(name);
            reveal_strlit("/nix/store/");
            is_ascii_chars_encode_utf8("/nix/store/"@);
            assert(encode_utf8("/nix/store/"@) =~= store_dir());
            let own = store_dir() + name;
            assert(store_root(own) == own);
            path::the_same_path_has_the_same_components(own, own);
            a_list_has_each_of_its_paths(read.store_paths, own, own);
            if 0 <= i < lines.len() {
                a_list_has_each_of_its_paths(read.store_paths, own, store_root(lines[i]));
            }
        }
    }
    if st.store_paths.len() <= i < read.store_paths.len() {
        assert(next.store_paths[i] == read.store_paths[i]);
    }
}

} // verus!
