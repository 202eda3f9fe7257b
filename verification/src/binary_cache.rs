//! The narinfo files of a binary cache.

use crate::path;
use crate::path::{join, split_path};
use crate::store_hash;
use crate::store_hash::StoreHash;
use crate::text;
use crate::text::{
    append_run, chars_of, find_colon, lines, lossy_text, parse_u64, spells, split, text_of,
    trim_end, utf8_text,
};
use vstd::prelude::*;
use vstd::slice::{slice_subrange, slice_to_vec};
use vstd::string::*;
use vstd::utf8::*;

verus! {

// ---------------------------------------------------------------------------------------------
// The text of a narinfo
// ---------------------------------------------------------------------------------------------
/// The fields of a narinfo that the pruner needs.
#[verifier::ext_equal]
pub struct FieldsView {
    pub url: Option<Seq<char>>,
    pub file_size: Option<u64>,
    pub nar_size: Option<u64>,
    pub references: Seq<Seq<char>>,
    pub deriver: Option<Seq<char>>,
}

/// A narinfo that says nothing.
pub open spec fn no_fields() -> FieldsView {
    FieldsView {
        url: None,
        file_size: None,
        nar_size: None,
        references: Seq::empty(),
        deriver: None,
    }
}

/// The words of `s`, which single spaces or more stand between.
pub open spec fn words(s: Seq<char>) -> Seq<Seq<char>> {
    text::pieces(s, ' ').filter(|q: (int, int)| q.0 < q.1).map_values(
        |q: (int, int)| text::span(s, q),
    )
}

/// What a line adds to the fields: a line `<key>: <value>` sets the field of that name, where
/// white space at the end of the value does not count. A size that is no number is unknown, and
/// an empty Deriver is as good as none. Any other line is ignored.
pub open spec fn with_line(f: FieldsView, line: Seq<char>) -> FieldsView {
    match text::colon_from(line, 0) {
        None => f,
        Some(k) => {
            let key = line.take(k);
            let value = text::trimmed(line.skip(k + 2));
            if key == "URL"@ {
                FieldsView { url: Some(value), ..f }
            } else if key == "FileSize"@ {
                FieldsView { file_size: text::parsed_u64(value), ..f }
            } else if key == "NarSize"@ {
                FieldsView { nar_size: text::parsed_u64(value), ..f }
            } else if key == "Deriver"@ && value.len() > 0 {
                FieldsView { deriver: Some(value), ..f }
            } else if key == "References"@ {
                FieldsView { references: words(value), ..f }
            } else {
                f
            }
        },
    }
}

/// The lines of a text.
pub open spec fn text_lines(s: Seq<char>) -> Seq<Seq<char>> {
    text::line_spans(s, '\n', '\r').map_values(|q: (int, int)| text::span(s, q))
}

/// What a sequence of lines says: where two lines set a field, the later one holds.
pub open spec fn fields_of(lines: Seq<Seq<char>>) -> FieldsView
    decreases lines.len(),
{
    if lines.len() == 0 {
        no_fields()
    } else {
        with_line(fields_of(lines.drop_last()), lines.last())
    }
}

/// What a narinfo file says.
pub struct Fields {
    url: Option<String>,
    file_size: Option<u64>,
    nar_size: Option<u64>,
    references: Vec<String>,
    deriver: Option<String>,
}

impl View for Fields {
    type V = FieldsView;

    closed spec fn view(&self) -> FieldsView {
        FieldsView {
            url: text::opt_text(self.url),
            file_size: self.file_size,
            nar_size: self.nar_size,
            references: text::texts(self.references@),
            deriver: text::opt_text(self.deriver),
        }
    }
}

/// The words of a run of characters.
fn split_words(s: &[char]) -> (r: Vec<String>)
    ensures
        text::texts(r@) == words(s@),
{
    let all = split(s, ' ');
    let ghost model = text::pieces(s@, ' ');
    let ghost keep = |q: (int, int)| q.0 < q.1;
    let ghost cut = |q: (int, int)| text::span(s@, q);
    proof {
        text::lemma_pieces_bounds(s@, ' ', 0, 0);
    }
    assert(model.len() == all@.len());
    let mut out: Vec<String> = Vec::new();
    let mut k: usize = 0;
    assert(model.take(0).filter(keep) =~= Seq::<(int, int)>::empty()) by {
        reveal(Seq::filter);
    }
    while k < all.len()
        invariant
            k <= all@.len(),
            text::spans(all@) == model,
            keep == (|q: (int, int)| q.0 < q.1),
            cut == (|q: (int, int)| text::span(s@, q)),
            forall|k: int|
                0 <= k < model.len() ==> {
                    let q = #[trigger] model[k];
                    0 <= q.0 <= q.1 <= s@.len()
                },
            text::texts(out@) == model.take(k as int).filter(keep).map_values(cut),
        decreases all@.len() - k,
    {
        let (a, b) = all[k];
        assert(model[k as int] == (a as int, b as int));
        proof {
            reveal(Seq::filter);
            assert(model.take(k + 1).drop_last() =~= model.take(k as int));
        }
        let ghost before = out@;
        if a < b {
            out.push(text_of(slice_subrange(s, a, b)));
            assert(text::texts(out@) =~= text::texts(before).push(cut(model[k as int])));
            assert(model.take(k as int).filter(keep).push(model[k as int]).map_values(cut)
                =~= model.take(k as int).filter(keep).map_values(cut).push(cut(model[k as int])));
        }
        k = k + 1;
    }
    assert(model.take(k as int) =~= model);
    out
}

impl Fields {
    fn none() -> (r: Self)
        ensures
            r@ == no_fields(),
    {
        let r = Fields {
            url: None,
            file_size: None,
            nar_size: None,
            references: Vec::new(),
            deriver: None,
        };
        assert(r@ =~= no_fields());
        r
    }

    /// Takes one line into account.
    fn read_line(&mut self, line: &[char])
        ensures
            final(self)@ == with_line(old(self)@, line@),
    {
        let k = match find_colon(line) {
            None => return,
            Some(k) => k,
        };
        let end: usize = line.len();
        let key = slice_subrange(line, 0, k);
        let value = trim_end(slice_subrange(line, k + 2, end));
        proof {
            assert(line@.subrange(0, k as int) =~= line@.take(k as int));
            assert(line@.subrange(k + 2, line@.len() as int) =~= line@.skip(k + 2));
        }
        if spells(key, "URL") {
            self.url = Some(text_of(value));
        } else if spells(key, "FileSize") {
            self.file_size = parse_u64(value);
        } else if spells(key, "NarSize") {
            self.nar_size = parse_u64(value);
        } else if spells(key, "Deriver") && value.len() > 0 {
            self.deriver = Some(text_of(value));
        } else if spells(key, "References") {
            self.references = split_words(value);
        }
        assert(self@ =~= with_line(old(self)@, line@));
    }

    /// Reads a whole narinfo.
    fn read(text: &str) -> (r: Self)
        ensures
            r@ == fields_of(text_lines(text@)),
    {
        let chars = chars_of(text);
        let all = lines(chars.as_slice(), '\n', '\r');
        let ghost model = text_lines(text@);
        proof {
            text::lemma_line_bounds(text@, '\n', '\r');
        }
        assert(text::spans(all@).len() == all@.len());
        let mut fields = Fields::none();
        let mut k: usize = 0;
        assert(model.take(0) =~= Seq::<Seq<char>>::empty());
        while k < all.len()
            invariant
                k <= all@.len(),
                chars@ == text@,
                model == text_lines(text@),
                text::spans(all@) == text::line_spans(text@, '\n', '\r'),
                forall|k: int|
                    0 <= k < all@.len() ==> {
                        let q = #[trigger] text::line_spans(text@, '\n', '\r')[k];
                        0 <= q.0 <= q.1 <= text@.len()
                    },
                fields@ == fields_of(model.take(k as int)),
            decreases all@.len() - k,
        {
            let (a, b) = all[k];
            assert(text::line_spans(text@, '\n', '\r')[k as int] == (a as int, b as int));
            fields.read_line(slice_subrange(chars.as_slice(), a, b));
            assert(model.take(k + 1).drop_last() =~= model.take(k as int));
            k = k + 1;
        }
        assert(model.take(k as int) =~= model);
        fields
    }
}

// ---------------------------------------------------------------------------------------------
// Narinfos
// ---------------------------------------------------------------------------------------------
/// A narinfo and where it was read.
#[verifier::ext_equal]
pub struct InfoView {
    pub path: Seq<u8>,
    pub fields: FieldsView,
}

/// What the narinfo at `path` with the given text says.
pub open spec fn info_of(path: Seq<u8>, text: Seq<char>) -> InfoView {
    InfoView { path, fields: fields_of(text_lines(text)) }
}

/// A parsed narinfo file.
pub struct Info {
    /// Where it was read.
    pub path: Vec<u8>,
    /// What it says.
    pub fields: Fields,
}

impl View for Info {
    type V = InfoView;

    open spec fn view(&self) -> InfoView {
        InfoView { path: self.path@, fields: self.fields@ }
    }
}

impl Info {
    /// Parses the text of a narinfo file.
    pub fn parse(path: &[u8], text: &str) -> (r: Self)
        ensures
            r@ == info_of(path@, text@),
    {
        Info { path: slice_to_vec(path), fields: Fields::read(text) }
    }

    /// Reads the narinfo file at `path`.
    ///
    /// # Errors
    ///
    /// Any error from reading the file.
    pub fn open<E, F: FnOnce(&[u8]) -> Result<String, E>>(path: &[u8], read: F) -> (r: Result<
        Self,
        E,
    >)
        requires
            call_requires(read, (path,)),
        ensures
            exists|text: Result<String, E>|
                {
                    &&& #[trigger] call_ensures(read, (path,), text)
                    &&& match text {
                        Ok(t) => r is Ok && r->Ok_0@ == info_of(path@, t@),
                        Err(e) => r == Err::<Self, E>(e),
                    }
                },
    {
        match read(path) {
            Ok(text) => Ok(Info::parse(path, text.as_str())),
            Err(e) => Err(e),
        }
    }

    /// Where the archive is, relative to the cache directory.
    #[must_use]
    pub fn url(&self) -> (r: Option<&str>)
        ensures
            match r {
                Some(u) => self@.fields.url == Some(u@),
                None => self@.fields.url is None,
            },
    {
        match &self.fields.url {
            Some(u) => Some(u.as_str()),
            None => None,
        }
    }

    /// The size of the archive; zero where it is unknown.
    #[must_use]
    pub fn file_size(&self) -> (r: u64)
        ensures
            r == or_zero(self@.fields.file_size),
    {
        match self.fields.file_size {
            Some(n) => n,
            None => 0,
        }
    }

    /// The size of what the archive unpacks to; zero where it is unknown.
    #[must_use]
    pub fn nar_size(&self) -> (r: u64)
        ensures
            r == or_zero(self@.fields.nar_size),
    {
        match self.fields.nar_size {
            Some(n) => n,
            None => 0,
        }
    }

    /// The name of the derivation that built the path.
    #[must_use]
    pub fn deriver(&self) -> (r: Option<&str>)
        ensures
            match r {
                Some(d) => self@.fields.deriver == Some(d@),
                None => self@.fields.deriver is None,
            },
    {
        match &self.fields.deriver {
            Some(d) => Some(d.as_str()),
            None => None,
        }
    }

    /// The names of the paths that this one refers to, in the order of the file.
    pub fn references(&self) -> (r: &Vec<String>)
        ensures
            text::texts(r@) == self@.fields.references,
    {
        &self.fields.references
    }

    /// What the pruner keeps of a narinfo. Names without a hash are dropped.
    pub fn to_nar_info(&self) -> (r: NarInfo)
        ensures
            r@ == nar_info_of(self@.fields),
    {
        let url = match self.url() {
            Some(u) => Some(u.to_owned()),
            None => None,
        };
        let deriver = match self.deriver() {
            Some(d) => StoreHash::from_name(d),
            None => None,
        };
        let names = self.references();
        let mut references: Vec<StoreHash> = Vec::new();
        let mut i: usize = 0;
        assert(text::texts(names@).take(0) =~= Seq::<Seq<char>>::empty());
        while i < names.len()
            invariant
                i <= names@.len(),
                hashes(references@) == hashes_in(text::texts(names@).take(i as int)),
            decreases names@.len() - i,
        {
            let ghost before = references@;
            match StoreHash::from_name(names[i].as_str()) {
                Some(h) => {
                    references.push(h);
                    assert(hashes(references@) =~= hashes(before).push(h@));
                },
                None => {},
            }
            assert(text::texts(names@).take(i + 1).drop_last() =~= text::texts(names@).take(
                i as int,
            ));
            i = i + 1;
        }
        assert(text::texts(names@).take(i as int) =~= text::texts(names@));
        let r = NarInfo {
            url,
            file_size: self.file_size(),
            nar_size: self.nar_size(),
            references,
            deriver,
        };
        assert(r@ =~= nar_info_of(self@.fields));
        r
    }
}

/// A size, or zero where it is unknown.
pub open spec fn or_zero(n: Option<u64>) -> u64 {
    match n {
        Some(n) => n,
        None => 0,
    }
}

/// The hash at the beginning of a name.
pub open spec fn name_hash(name: Seq<char>) -> Option<Seq<u8>> {
    store_hash::hash_prefix(encode_utf8(name))
}

/// The hashes of those names that have one, in order.
pub open spec fn hashes_in(names: Seq<Seq<char>>) -> Seq<Seq<u8>>
    decreases names.len(),
{
    if names.len() == 0 {
        Seq::empty()
    } else {
        let rest = hashes_in(names.drop_last());
        match name_hash(names.last()) {
            Some(h) => rest.push(h),
            None => rest,
        }
    }
}

/// The bytes of a list of hashes.
pub open spec fn hashes(v: Seq<StoreHash>) -> Seq<Seq<u8>> {
    v.map_values(|h: StoreHash| h@)
}

/// The bytes of an optional hash.
pub open spec fn opt_hash(h: Option<StoreHash>) -> Option<Seq<u8>> {
    match h {
        Some(h) => Some(h@),
        None => None,
    }
}

/// What the pruner keeps of a narinfo.
#[verifier::ext_equal]
pub struct NarInfoView {
    pub url: Option<Seq<char>>,
    pub file_size: u64,
    pub nar_size: u64,
    pub references: Seq<Seq<u8>>,
    pub deriver: Option<Seq<u8>>,
}

/// What is kept of the fields of a narinfo.
pub open spec fn nar_info_of(f: FieldsView) -> NarInfoView {
    NarInfoView {
        url: f.url,
        file_size: or_zero(f.file_size),
        nar_size: or_zero(f.nar_size),
        references: hashes_in(f.references),
        deriver: match f.deriver {
            Some(d) => name_hash(d),
            None => None,
        },
    }
}

/// The metadata of a store path: its archive, and the hashes of what it needs.
#[derive(Debug)]
pub struct NarInfo {
    pub url: Option<String>,
    pub file_size: u64,
    pub nar_size: u64,
    pub references: Vec<StoreHash>,
    pub deriver: Option<StoreHash>,
}

impl View for NarInfo {
    type V = NarInfoView;

    open spec fn view(&self) -> NarInfoView {
        NarInfoView {
            url: text::opt_text(self.url),
            file_size: self.file_size,
            nar_size: self.nar_size,
            references: hashes(self.references@),
            deriver: opt_hash(self.deriver),
        }
    }
}

impl Clone for NarInfo {
    fn clone(&self) -> (r: Self)
        ensures
            r@ == self@,
    {
        let url = match &self.url {
            Some(u) => Some(u.clone()),
            None => None,
        };
        let r = NarInfo {
            url,
            file_size: self.file_size,
            nar_size: self.nar_size,
            references: slice_to_vec(self.references.as_slice()),
            deriver: self.deriver,
        };
        assert(r@ =~= self@);
        r
    }
}

// ---------------------------------------------------------------------------------------------
// The cache directory
// ---------------------------------------------------------------------------------------------
/// A directory of narinfo files.
pub struct BinaryCache {
    pub path: Vec<u8>,
}

/// Why a narinfo could not be had.
#[derive(Debug)]
pub enum InfoError<E> {
    /// The path is not a `/nix/store/<hash>-<name>` path.
    NotAStorePath(Vec<u8>),
    /// The narinfo file could not be read.
    Io(E),
}

impl<E> InfoError<E> {
    /// The error as text; `show` gives that of a failure to read.
    pub fn to_text<F: Fn(&E) -> String>(&self, show: F) -> (r: String)
        requires
            forall|e: &E| #[trigger] call_requires(show, (e,)),
        ensures
            match self {
                InfoError::NotAStorePath(path) => {
                    &&& r@ == "not a store path: "@ + text::lossy(path@)
                    &&& valid_utf8(path@) ==> r@ == "not a store path: "@ + decode_utf8(path@)
                },
                InfoError::Io(e) => call_ensures(show, (e,), r),
            },
    {
        match self {
            InfoError::NotAStorePath(path) => {
                let mut out = "not a store path: ".to_owned();
                out.append(lossy_text(path.as_slice()).as_str());
                out
            },
            InfoError::Io(e) => show(e),
        }
    }
}

/// The bytes of `.narinfo`.
pub open spec fn narinfo_suffix() -> Seq<u8> {
    seq![0x2eu8, 0x6e, 0x61, 0x72, 0x69, 0x6e, 0x66, 0x6f]
}

/// The bytes of `.narinfo`.
pub fn narinfo_suffix_bytes() -> (r: [u8; 8])
    ensures
        r@ == narinfo_suffix(),
{
    let r: [u8; 8] = [0x2e, 0x6e, 0x61, 0x72, 0x69, 0x6e, 0x66, 0x6f];
    assert(r@ =~= narinfo_suffix());
    r
}

/// Where the narinfo of a hash is.
pub open spec fn narinfo_path(dir: Seq<u8>, hash: Seq<u8>) -> Seq<u8> {
    path::joined(dir, hash + narinfo_suffix())
}

/// The part of a path below `/nix/store`, from its first component to its last.
pub open spec fn below_store(p: Seq<u8>) -> Seq<u8> {
    let cs = path::component_spans(p);
    p.subrange(cs[2].0, cs.last().1)
}

/// The hash under which a store path is looked up: that of the path, where all that is below
/// `/nix/store` is text.
pub open spec fn lookup_hash(p: Seq<u8>) -> Option<Seq<u8>> {
    if store_hash::store_path_hash(p) is Some && valid_utf8(below_store(p)) {
        store_hash::store_path_hash(p)
    } else {
        None
    }
}

impl BinaryCache {
    /// The cache in a directory.
    pub fn new(path: Vec<u8>) -> (r: Self)
        ensures
            r.path == path,
    {
        BinaryCache { path }
    }

    /// Reads the narinfo of a store path.
    ///
    /// # Errors
    ///
    /// `NotAStorePath` if `path` is not a `/nix/store/<hash>-<name>` path, or any error from
    /// reading the narinfo file.
    pub fn get_info_by_store_path<E, F: FnOnce(&[u8]) -> Result<String, E>>(
        &self,
        path: &[u8],
        read: F,
    ) -> (r: Result<Info, InfoError<E>>)
        requires
            forall|file: &[u8]| #[trigger] call_requires(read, (file,)),
        ensures
            match lookup_hash(path@) {
                None => r is Err && r->Err_0 is NotAStorePath && r->Err_0->NotAStorePath_0@
                    == path@,
                Some(h) => exists|file: &[u8], text: Result<String, E>|
                    {
                        &&& #[trigger] call_ensures(read, (file,), text)
                        &&& file@ == narinfo_path(self.path@, h)
                        &&& match text {
                            Ok(t) => r is Ok && r->Ok_0@ == info_of(file@, t@),
                            Err(e) => r == Err::<Info, InfoError<E>>(InfoError::Io(e)),
                        }
                    },
            },
    {
        let hash = match StoreHash::from_store_path(path) {
            Some(h) => h,
            None => return Err(InfoError::NotAStorePath(slice_to_vec(path))),
        };
        let cs = split_path(path);
        proof {
            path::lemma_component_bounds(path@);
            path::lemma_components_ordered(path@);
        }
        assert(text::spans(cs@).len() == path::components(path@).len());
        let last: usize = cs.len() - 1;
        assert(path::component_spans(path@)[2] == (cs@[2].0 as int, cs@[2].1 as int));
        assert(path::component_spans(path@)[last as int] == (
            cs@[last as int].0 as int,
            cs@[last as int].1 as int,
        ));
        if utf8_text(slice_subrange(path, cs[2].0, cs[last].1)).is_none() {
            return Err(InfoError::NotAStorePath(slice_to_vec(path)));
        }
        match self.get_info_by_hash(hash.as_str(), read) {
            Ok(info) => Ok(info),
            Err(e) => Err(InfoError::Io(e)),
        }
    }

    /// Reads `<hash>.narinfo`.
    ///
    /// # Errors
    ///
    /// Any error from reading the file.
    pub fn get_info_by_hash<E, F: FnOnce(&[u8]) -> Result<String, E>>(
        &self,
        hash: &str,
        read: F,
    ) -> (r: Result<Info, E>)
        requires
            forall|file: &[u8]| #[trigger] call_requires(read, (file,)),
        ensures
            exists|file: &[u8], text: Result<String, E>|
                {
                    &&& #[trigger] call_ensures(read, (file,), text)
                    &&& file@ == narinfo_path(self.path@, encode_utf8(hash@))
                    &&& match text {
                        Ok(t) => r is Ok && r->Ok_0@ == info_of(file@, t@),
                        Err(e) => r == Err::<Info, E>(e),
                    }
                },
    {
        let file = self.narinfo_file(hash);
        Info::open(file.as_slice(), read)
    }

    /// Where the narinfo of a hash is.
    pub fn narinfo_file(&self, hash: &str) -> (r: Vec<u8>)
        ensures
            r@ == narinfo_path(self.path@, encode_utf8(hash@)),
    {
        let mut name = slice_to_vec(hash.as_bytes());
        append_run(&mut name, narinfo_suffix_bytes().as_slice());
        join(self.path.as_slice(), name.as_slice())
    }
}

// ---------------------------------------------------------------------------------------------
// Laws
// ---------------------------------------------------------------------------------------------
/// Words are taken one by one: those of two texts with a space between them are the words of the
/// one and then those of the other, and a text without spaces is one word, however long, unless it
/// is empty.
pub proof fn words_are_taken_one_by_one(a: Seq<char>, b: Seq<char>)
    ensures
        words(a.push(' ') + b) == words(a) + words(b),
        !a.contains(' ') ==> words(a) == (if a.len() == 0 {
            Seq::<Seq<char>>::empty()
        } else {
            seq![a]
        }),
{
    let s = a.push(' ') + b;
    let n = a.len() as int + 1;
    let (pa, pb) = (text::pieces(a, ' '), text::pieces(b, ' '));
    let mb = text::moved(pb, n);
    text::lemma_pieces_of_two(a, ' ', b);
    text::lemma_pieces_bounds(a, ' ', 0, 0);
    text::lemma_pieces_bounds(b, ' ', 0, 0);
    let keep = |q: (int, int)| q.0 < q.1;
    let map_s = |q: (int, int)| text::span(s, q);
    let map_a = |q: (int, int)| text::span(a, q);
    let map_b = |q: (int, int)| text::span(b, q);
    text::lemma_kept_of_two(pa, mb, keep, map_s);
    assert forall|k: int| 0 <= k < pa.len() implies keep(#[trigger] pa[k]) == keep(pa[k]) && (keep(
        pa[k],
    ) ==> map_s(pa[k]) == map_a(pa[k])) by {
        assert(text::span(s, pa[k]) =~= text::span(a, pa[k]));
    }
    text::lemma_same_kept(pa, pa, keep, keep, map_s, map_a);
    assert forall|k: int| 0 <= k < mb.len() implies keep(#[trigger] mb[k]) == keep(pb[k]) && (keep(
        mb[k],
    ) ==> map_s(mb[k]) == map_b(pb[k])) by {
        assert(text::span(s, mb[k]) =~= text::span(b, pb[k]));
    }
    text::lemma_same_kept(mb, pb, keep, keep, map_s, map_b);
    assert(words(s) =~= pa.filter(keep).map_values(map_s) + mb.filter(keep).map_values(map_s));
    assert(words(a) =~= pa.filter(keep).map_values(map_a));
    assert(words(b) =~= pb.filter(keep).map_values(map_b));
    if !a.contains(' ') {
        assert forall|j: int| 0 <= j < a.len() implies #[trigger] a[j] != ' ' by {
            assert(a.contains(a[j]));
        }
        text::lemma_last_piece(a, ' ', 0, 0);
        let one = seq![(0int, a.len() as int)];
        assert(one.drop_last() =~= Seq::<(int, int)>::empty());
        reveal(Seq::filter);
        reveal_with_fuel(Seq::filter, 2);
        assert(text::span(a, (0, a.len() as int)) =~= a);
        assert(words(a) =~= (if a.len() == 0 {
            Seq::<Seq<char>>::empty()
        } else {
            seq![a]
        }));
    }
}

/// Words, one right after another.
pub open spec fn run_together(list: Seq<Seq<char>>) -> Seq<char>
    decreases list.len(),
{
    if list.len() == 0 {
        Seq::empty()
    } else {
        run_together(list.drop_last()) + list.last()
    }
}

proof fn lemma_run_together(a: Seq<Seq<char>>, b: Seq<Seq<char>>)
    ensures
        run_together(a + b) == run_together(a) + run_together(b),
    decreases b.len(),
{
    if b.len() == 0 {
        assert(a + b =~= a);
        assert(run_together(a) + run_together(b) =~= run_together(a));
    } else {
        lemma_run_together(a, b.drop_last());
        assert((a + b).drop_last() =~= a + b.drop_last());
        assert(run_together(a + b) =~= run_together(a) + run_together(b));
    }
}

proof fn lemma_no_space_stays(s: Seq<char>)
    requires
        !s.contains(' '),
    ensures
        s.filter(|c: char| c != ' ') == s,
    decreases s.len(),
{
    reveal(Seq::filter);
    if s.len() > 0 {
        let shorter = s.drop_last();
        assert(s[s.len() - 1] != ' ') by {
            assert(s.contains(s[s.len() - 1]));
        }
        if shorter.contains(' ') {
            let j = choose|j: int| 0 <= j < shorter.len() && shorter[j] == ' ';
            assert(s[j] == ' ');
        }
        lemma_no_space_stays(shorter);
        assert(s.filter(|c: char| c != ' ') =~= shorter.push(s.last()));
        assert(shorter.push(s.last()) =~= s);
    } else {
        assert(s.filter(|c: char| c != ' ') =~= s);
    }
}

/// No character of a list of words is lost, and nothing is added: run together, the words are the
/// text without its spaces; and no word is empty or holds a space.
pub proof fn words_lose_nothing_but_spaces(s: Seq<char>)
    ensures
        run_together(words(s)) == s.filter(|c: char| c != ' '),
        forall|k: int|
            0 <= k < words(s).len() ==> (#[trigger] words(s)[k]).len() > 0 && !words(s)[k].contains(
                ' ',
            ),
    decreases s.len(),
{
    let no_space = |c: char| c != ' ';
    if s.contains(' ') {
        let i = choose|i: int| 0 <= i < s.len() && s[i] == ' ';
        let (a, b) = (s.take(i), s.skip(i + 1));
        assert(s =~= a.push(' ') + b);
        words_are_taken_one_by_one(a, b);
        words_lose_nothing_but_spaces(a);
        words_lose_nothing_but_spaces(b);
        lemma_run_together(words(a), words(b));
        Seq::filter_distributes_over_add(a.push(' '), b, no_space);
        assert(a.push(' ').filter(no_space) =~= a.filter(no_space)) by {
            reveal(Seq::filter);
            assert(a.push(' ').drop_last() =~= a);
        }
        assert forall|k: int| 0 <= k < words(s).len() implies (#[trigger] words(s)[k]).len() > 0
            && !words(s)[k].contains(' ') by {
            if k < words(a).len() {
                assert(words(s)[k] == words(a)[k]);
            } else {
                assert(words(s)[k] == words(b)[k - words(a).len()]);
            }
        }
    } else {
        words_are_taken_one_by_one(s, s);
        lemma_no_space_stays(s);
        if s.len() > 0 {
            reveal_with_fuel(run_together, 2);
            assert(words(s) =~= seq![s]);
            assert(words(s).drop_last() =~= Seq::<Seq<char>>::empty());
            assert(run_together(words(s)) =~= s);
        } else {
            assert(run_together(words(s)) =~= s);
        }
    }
}

/// A line of a narinfo: a name, a colon and a space, a value, and white space.
pub open spec fn line_of(key: Seq<char>, value: Seq<char>, space: Seq<char>) -> Seq<char> {
    key + seq![':', ' '] + (value + space)
}

proof fn lemma_keys_differ()
    ensures
        "URL"@ != "FileSize"@ && "URL"@ != "NarSize"@ && "URL"@ != "Deriver"@ && "URL"@
            != "References"@,
        "FileSize"@ != "NarSize"@ && "FileSize"@ != "Deriver"@ && "FileSize"@ != "References"@,
        "NarSize"@ != "Deriver"@ && "NarSize"@ != "References"@ && "Deriver"@ != "References"@,
{
    reveal_strlit("URL");
    reveal_strlit("FileSize");
    reveal_strlit("NarSize");
    reveal_strlit("Deriver");
    reveal_strlit("References");
    assert("URL"@.len() == 3);
    assert("FileSize"@.len() == 8);
    assert("NarSize"@.len() == 7);
    assert("Deriver"@.len() == 7);
    assert("References"@.len() == 10);
    assert("NarSize"@[0] != "Deriver"@[0]);
}

/// A line sets the field that it names to its value, without the white space at the end, and leaves
/// all others alone. A line that names no field, and one without a colon and a space, does nothing;
/// nor does a Deriver without a value.
pub proof fn a_line_sets_the_field_that_it_names(
    f: FieldsView,
    key: Seq<char>,
    value: Seq<char>,
    space: Seq<char>,
)
    requires
        forall|j: int| !#[trigger] text::colon_at(key, j),
        value.len() == 0 || !text::is_white_space(value.last()),
        forall|i: int| 0 <= i < space.len() ==> text::is_white_space(#[trigger] space[i]),
    ensures
        ({
            let r = with_line(f, line_of(key, value, space));
            &&& key == "URL"@ ==> r == (FieldsView { url: Some(value), ..f })
            &&& key == "FileSize"@ ==> r == (FieldsView {
                file_size: text::parsed_u64(value),
                ..f
            })
            &&& key == "NarSize"@ ==> r == (FieldsView { nar_size: text::parsed_u64(value), ..f })
            &&& key == "Deriver"@ && value.len() > 0 ==> r == (FieldsView {
                deriver: Some(value),
                ..f
            })
            &&& key == "Deriver"@ && value.len() == 0 ==> r == f
            &&& key == "References"@ ==> r == (FieldsView { references: words(value), ..f })
            &&& key != "URL"@ && key != "FileSize"@ && key != "NarSize"@ && key != "Deriver"@
                && key != "References"@ ==> r == f
        }),
        with_line(f, key) == f,
{
    let line = line_of(key, value, space);
    text::a_text_is_cut_at_its_first_colon(key, value + space);
    text::trimming_takes_off_white_space_alone(value, space);
    assert(line.take(key.len() as int) =~= key);
    assert(line.skip(key.len() as int + 2) =~= value + space);
    lemma_keys_differ();
}

/// Whether a line begins with a name, a colon and a space, and that is the first colon with a space
/// in it.
pub open spec fn has_key(line: Seq<char>, key: Seq<char>) -> bool {
    &&& (key + seq![':', ' ']).is_prefix_of(line)
    &&& forall|j: int| 0 <= j < key.len() ==> !#[trigger] text::colon_at(line, j)
}

proof fn lemma_other_lines(f: FieldsView, line: Seq<char>)
    ensures
        !has_key(line, "URL"@) ==> with_line(f, line).url == f.url,
        !has_key(line, "FileSize"@) ==> with_line(f, line).file_size == f.file_size,
        !has_key(line, "NarSize"@) ==> with_line(f, line).nar_size == f.nar_size,
        !has_key(line, "Deriver"@) ==> with_line(f, line).deriver == f.deriver,
        !has_key(line, "References"@) ==> with_line(f, line).references == f.references,
{
    if let Some(k) = text::colon_from(line, 0) {
        text::lemma_colon_found(line);
        let key = line.take(k);
        assert(line.subrange(0, k + 2) =~= key + seq![':', ' ']);
        assert(has_key(line, key));
        lemma_keys_differ();
    }
}

/// The later of two lines counts: a field has the value of the last line that names it, whatever
/// stands before that line and whatever else stands behind it. A field that no line names has no
/// value.
pub proof fn the_last_line_of_a_field_counts(
    before: Seq<Seq<char>>,
    line: Seq<char>,
    after: Seq<Seq<char>>,
)
    ensures
        ({
            let r = fields_of(before.push(line) + after);
            let at = with_line(fields_of(before), line);
            &&& (forall|k: int| 0 <= k < after.len() ==> !has_key(#[trigger] after[k], "URL"@))
                ==> r.url == at.url
            &&& (forall|k: int| 0 <= k < after.len() ==> !has_key(#[trigger] after[k], "FileSize"@))
                ==> r.file_size == at.file_size
            &&& (forall|k: int| 0 <= k < after.len() ==> !has_key(#[trigger] after[k], "NarSize"@))
                ==> r.nar_size == at.nar_size
            &&& (forall|k: int| 0 <= k < after.len() ==> !has_key(#[trigger] after[k], "Deriver"@))
                ==> r.deriver == at.deriver
            &&& (forall|k: int|
                0 <= k < after.len() ==> !has_key(#[trigger] after[k], "References"@))
                ==> r.references == at.references
        }),
        ({
            let r = fields_of(after);
            &&& (forall|k: int| 0 <= k < after.len() ==> !has_key(#[trigger] after[k], "URL"@))
                ==> r.url is None
            &&& (forall|k: int| 0 <= k < after.len() ==> !has_key(#[trigger] after[k], "FileSize"@))
                ==> r.file_size is None
            &&& (forall|k: int| 0 <= k < after.len() ==> !has_key(#[trigger] after[k], "NarSize"@))
                ==> r.nar_size is None
            &&& (forall|k: int| 0 <= k < after.len() ==> !has_key(#[trigger] after[k], "Deriver"@))
                ==> r.deriver is None
            &&& (forall|k: int|
                0 <= k < after.len() ==> !has_key(#[trigger] after[k], "References"@))
                ==> r.references.len() == 0
        }),
    decreases after.len(),
{
    let all = before.push(line) + after;
    if after.len() == 0 {
        assert(all =~= before.push(line));
        assert(all.drop_last() =~= before);
    } else {
        let shorter = after.drop_last();
        let last = after[after.len() - 1];
        the_last_line_of_a_field_counts(before, line, shorter);
        assert(all.drop_last() =~= before.push(line) + shorter);
        assert(all.last() == last);
        lemma_other_lines(fields_of(all.drop_last()), last);
        lemma_other_lines(fields_of(shorter), last);
        assert forall|k: int| 0 <= k < shorter.len() implies shorter[k] == #[trigger] after[k] by {}
        assert forall|k: int| 0 <= k < shorter.len() implies #[trigger] shorter[k] == after[k] by {}
    }
}

/// A narinfo is read line by line: a line anywhere in it is a line of it, between those of what
/// stands before and those of what stands behind.
pub proof fn a_narinfo_is_read_line_by_line(
    path: Seq<u8>,
    before: Seq<char>,
    line: Seq<char>,
    after: Seq<char>,
)
    requires
        before.len() == 0 || before.last() == '\n',
        !line.contains('\n'),
        line.len() == 0 || line.last() != '\r',
    ensures
        text_lines(before + line.push('\n') + after) == text_lines(before) + seq![line]
            + text_lines(after),
        line.len() > 0 ==> text_lines(before + line) == text_lines(before) + seq![line],
        info_of(path, before + line.push('\n') + after).fields == fields_of(
            text_lines(before) + seq![line] + text_lines(after),
        ),
        info_of(path, before).path == path,
        text_lines(Seq::empty()) == Seq::<Seq<char>>::empty(),
{
    let all = before + line.push('\n') + after;
    let front = before + line;
    assert(all =~= front.push('\n') + after);
    text::lines_come_one_after_another(front, after, '\n', '\r');
    text::a_line_ends_at_its_newline(line, '\n', '\r');
    text::a_line_ends_at_its_newline(Seq::<char>::empty(), '\n', '\r');
    let none = Seq::<Seq<char>>::empty();
    if before.len() == 0 {
        assert(front =~= line);
        assert(before =~= Seq::<char>::empty());
        assert(none + seq![line] =~= seq![line]);
    } else {
        let head = before.drop_last();
        assert(before =~= head.push('\n'));
        assert(front.push('\n') =~= head.push('\n') + line.push('\n'));
        assert(front =~= head.push('\n') + line);
        text::lines_come_one_after_another(head, line.push('\n'), '\n', '\r');
        text::lines_come_one_after_another(head, line, '\n', '\r');
    }
    lemma_text_lines(all);
    lemma_text_lines(before);
    lemma_text_lines(after);
    lemma_text_lines(front);
    lemma_text_lines(Seq::empty());
}

proof fn lemma_text_lines(s: Seq<char>)
    ensures
        text_lines(s) == text::line_texts(s, '\n', '\r'),
{
    assert(text_lines(s) =~= text::line_texts(s, '\n', '\r'));
}

proof fn lemma_hashes_in(names: Seq<Seq<char>>, h: Seq<u8>)
    ensures
        hashes_in(names).contains(h) <==> exists|k: int|
            0 <= k < names.len() && store_hash::hash_prefix(encode_utf8(#[trigger] names[k]))
                == Some(h),
    decreases names.len(),
{
    if names.len() > 0 {
        let shorter = names.drop_last();
        let rest = hashes_in(shorter);
        let all = hashes_in(names);
        lemma_hashes_in(shorter, h);
        assert(names.last() == names[names.len() - 1]);
        if rest.contains(h) {
            let i = choose|i: int| 0 <= i < rest.len() && rest[i] == h;
            assert(all[i] == h);
            let k = choose|k: int|
                0 <= k < shorter.len() && store_hash::hash_prefix(
                    encode_utf8(#[trigger] shorter[k]),
                ) == Some(h);
            assert(names[k] == shorter[k]);
        }
        if name_hash(names.last()) is Some {
            assert(all.last() == name_hash(names.last())->0);
        }
        if exists|k: int|
            0 <= k < names.len() && store_hash::hash_prefix(encode_utf8(#[trigger] names[k]))
                == Some(h) {
            let k = choose|k: int|
                0 <= k < names.len() && store_hash::hash_prefix(encode_utf8(#[trigger] names[k]))
                    == Some(h);
            if k < shorter.len() {
                assert(shorter[k] == names[k]);
            }
        }
        if all.contains(h) && !rest.contains(h) {
            let i = choose|i: int| 0 <= i < all.len() && all[i] == h;
            assert(i == rest.len());
        }
    }
}

/// Nothing that a narinfo needs is forgotten, and nothing is made up: a hash is among the references
/// if and only if a name in the list begins with it, and the deriver is that which its name begins
/// with. The URL and the sizes are taken as they are; a size that is unknown is zero.
pub proof fn a_narinfo_needs_what_it_names(f: FieldsView, h: Seq<u8>)
    ensures
        nar_info_of(f).references.contains(h) <==> exists|k: int|
            0 <= k < f.references.len() && store_hash::is_hash(h) && h.is_prefix_of(
                encode_utf8(#[trigger] f.references[k]),
            ),
        nar_info_of(f).deriver == Some(h) <==> {
            &&& f.deriver is Some
            &&& store_hash::is_hash(h)
            &&& h.is_prefix_of(encode_utf8(f.deriver->0))
        },
        nar_info_of(f).url == f.url,
        f.file_size matches Some(n) ==> nar_info_of(f).file_size == n,
        f.nar_size matches Some(n) ==> nar_info_of(f).nar_size == n,
        f.file_size is None ==> nar_info_of(f).file_size == 0,
        f.nar_size is None ==> nar_info_of(f).nar_size == 0,
{
    lemma_hashes_in(f.references, h);
    assert forall|k: int| 0 <= k < f.references.len() implies (store_hash::hash_prefix(
        encode_utf8(#[trigger] f.references[k]),
    ) == Some(h)) == (store_hash::is_hash(h) && h.is_prefix_of(encode_utf8(f.references[k]))) by {
        store_hash::a_name_has_the_hash_that_it_begins_with(encode_utf8(f.references[k]), h);
    }
    if let Some(d) = f.deriver {
        store_hash::a_name_has_the_hash_that_it_begins_with(encode_utf8(d), h);
    }
}

/// References keep their order: those of two lists of names, one after the other, are the
/// references of the one and then those of the other, and a name that begins with no hash is none.
pub proof fn references_keep_their_order(a: Seq<Seq<char>>, b: Seq<Seq<char>>, name: Seq<char>)
    ensures
        hashes_in(a + b) == hashes_in(a) + hashes_in(b),
        hashes_in(seq![name]) == (match store_hash::hash_prefix(encode_utf8(name)) {
            Some(h) => seq![h],
            None => Seq::empty(),
        }),
    decreases b.len(),
{
    if b.len() == 0 {
        assert(a + b =~= a);
        assert(hashes_in(a) + hashes_in(b) =~= hashes_in(a));
    } else {
        references_keep_their_order(a, b.drop_last(), name);
        assert((a + b).drop_last() =~= a + b.drop_last());
        assert(hashes_in(a + b) =~= hashes_in(a) + hashes_in(b));
    }
    reveal_with_fuel(hashes_in, 2);
    assert(seq![name].drop_last() =~= Seq::<Seq<char>>::empty());
    assert(hashes_in(seq![name]) =~= (match store_hash::hash_prefix(encode_utf8(name)) {
        Some(h) => seq![h],
        None => Seq::empty(),
    }));
}

/// The narinfo of a hash is in the cache directory, in the file that is named after the hash.
pub proof fn a_narinfo_is_named_after_its_hash(dir: Seq<u8>, hash: Seq<u8>)
    requires
        store_hash::is_hash(hash),
    ensures
        path::file_name(narinfo_path(dir, hash)) == Some(hash + encode_utf8(".narinfo"@)),
        narinfo_path(dir, hash) == path::joined(dir, hash + encode_utf8(".narinfo"@)),
        dir.len() > 0 ==> path::components(narinfo_path(dir, hash)) == path::components(dir).push(
            hash + encode_utf8(".narinfo"@),
        ),
        narinfo_suffix() == encode_utf8(".narinfo"@),
{
    reveal_strlit(".narinfo");
    is_ascii_chars_encode_utf8(".narinfo"@);
    assert(encode_utf8(".narinfo"@) =~= narinfo_suffix());
    let name = hash + narinfo_suffix();
    assert(store_hash::is_alphanumeric(hash[0]));
    if name.contains(path::SLASH) {
        let i = choose|i: int| 0 <= i < name.len() && name[i] == path::SLASH;
        if i < 32 {
            assert(store_hash::is_alphanumeric(hash[i]));
        } else {
            assert(name[i] == narinfo_suffix()[i - 32]);
        }
    }
    assert(name.len() == 40);
    path::lemma_joined_name(dir, name);
    path::a_path_is_put_under_a_directory(dir, name);
    let none = Seq::<u8>::empty();
    path::a_path_is_read_name_by_name(none, none);
    path::a_path_is_read_name_by_name(none, name);
    assert(none.push(path::SLASH) + name =~= seq![0x2fu8] + name);
    assert(path::components(none).push(name) =~= seq![name]);
    assert(path::components(dir) + seq![name] =~= path::components(dir).push(name));
}

/// A store path is looked up under its own hash, and is looked up where its name is text.
pub proof fn a_store_path_is_looked_up_under_its_hash(p: Seq<u8>, name: Seq<u8>)
    ensures
        lookup_hash(p) matches Some(h) ==> store_hash::store_path_hash(p) == Some(h),
        !name.contains(path::SLASH) && store_hash::hash_prefix(name) is Some ==> lookup_hash(
            encode_utf8("/nix/store/"@) + name,
        ) == (if valid_utf8(name) {
            store_hash::hash_prefix(name)
        } else {
            None::<Seq<u8>>
        }),
{
    if !name.contains(path::SLASH) && store_hash::hash_prefix(name) is Some {
        let q = encode_utf8("/nix/store/"@) + name;
        store_hash::what_lies_below_a_store_path_does_not_matter(name, name);
        store_hash::lemma_store_path_spans(name);
        assert(below_store(q) =~= name);
    }
}

/// Lists of hashes are taken as they are.
pub proof fn a_list_of_hashes_is_taken_whole(v: Seq<StoreHash>, k: int)
    ensures
        hashes(v).len() == v.len(),
        0 <= k < v.len() ==> hashes(v)[k] == v[k]@,
{
}

/// A store path that is text is looked up, and so is everything below it.
pub proof fn a_store_path_that_is_text_is_looked_up(p: Seq<u8>)
    requires
        valid_utf8(p),
    ensures
        lookup_hash(p) == store_hash::store_path_hash(p),
{
    if let Some(h) = store_hash::store_path_hash(p) {
        let cs = path::component_spans(p);
        let last = cs.len() - 1;
        path::lemma_component_bounds(p);
        path::lemma_components_ordered(p);
        assert(cs.len() == path::components(p).len());
        let (a, e) = (cs[2].0, cs[last].1);
        path::lemma_component_ends(p, last);
        assert(0 <= cs[2].0 < cs[2].1 <= p.len());
        if last > 2 {
            assert(cs[2].1 < cs[last].0);
        }
        assert(path::components(p)[2] == text::span(p, cs[2]));
        assert(h[0] == p[a]);
        assert(store_hash::is_alphanumeric(h[0]));
        let front = p.take(e);
        assert(p.subrange(0, e) =~= front);
        if e < p.len() {
            is_char_boundary_iff_not_is_continuation_byte(p, e);
            assert(!is_continuation_byte(0x2fu8)) by (bit_vector);
            valid_utf8_split(p, e);
        } else {
            assert(front =~= p);
        }
        let b = p[a];
        assert(store_hash::is_alphanumeric(b) ==> !is_continuation_byte(b)) by {
            assert(b < 0x80u8 ==> !is_continuation_byte(b)) by (bit_vector);
        }
        assert(front[a] == b);
        is_char_boundary_iff_not_is_continuation_byte(front, a);
        valid_utf8_split(front, a);
        assert(front.subrange(a, front.len() as int) =~= below_store(p));
    }
}

/// A narinfo is split into lines as any text is, and a hash that may be missing is that hash where
/// it is there.
pub proof fn a_narinfo_is_split_into_lines(s: Seq<char>, h: StoreHash)
    ensures
        text_lines(s) == text::line_texts(s, '\n', '\r'),
        opt_hash(Some(h)) == Some(h@),
        opt_hash(None) is None,
{
    assert(text_lines(s) =~= text::line_texts(s, '\n', '\r'));
}

/// A store path is looked up exactly where it is text, however deep it leads.
pub proof fn a_store_path_is_looked_up_where_it_is_text(p: Seq<u8>)
    ensures
        lookup_hash(p) == (if valid_utf8(p) {
            store_hash::store_path_hash(p)
        } else {
            None
        }),
{
    if valid_utf8(p) {
        a_store_path_that_is_text_is_looked_up(p);
    } else if lookup_hash(p) is Some {
        let cs = path::component_spans(p);
        let last = cs.len() - 1;
        path::lemma_component_bounds(p);
        path::lemma_components_ordered(p);
        assert(cs.len() == path::components(p).len());
        let (a, e) = (cs[2].0, cs[last].1);
        assert(0 <= a <= e <= p.len()) by {
            if last > 2 {
                assert(cs[2].1 < cs[last].0);
            }
        }
        let front = p.take(a);
        let back = p.skip(e);
        assert forall|i: int| 0 <= i < front.len() implies #[trigger] front[i] < 0x80 by {
            lemma_before_the_name(p, i);
        }
        assert forall|i: int| 0 <= i < back.len() implies #[trigger] back[i] < 0x80 by {
            lemma_behind_the_end(p, e + i);
        }
        store_hash::lemma_small_bytes_are_text(front);
        store_hash::lemma_small_bytes_are_text(back);
        valid_utf8_concat(front, below_store(p));
        valid_utf8_concat(front + below_store(p), back);
        assert(front + below_store(p) + back =~= p);
    }
}

proof fn lemma_before_the_name(p: Seq<u8>, i: int)
    requires
        store_hash::store_path_hash(p) is Some,
        0 <= i < path::component_spans(p)[2].0,
    ensures
        p[i] < 0x80,
{
    let cs = path::component_spans(p);
    path::lemma_component_bounds(p);
    path::lemma_outside_components(p, 2, i);
    if p[i] != path::SLASH && p[i] != path::DOT {
        let k = choose|k: int| 0 <= k < 2 && (#[trigger] cs[k]).0 <= i < cs[k].1;
        let name = path::components(p)[k];
        assert(name == text::span(p, cs[k]));
        assert(name[i - cs[k].0] == p[i]);
        assert(name == store_hash::nix_name() || name == store_hash::store_name());
    }
}

proof fn lemma_behind_the_end(p: Seq<u8>, i: int)
    requires
        store_hash::store_path_hash(p) is Some,
        path::component_spans(p).last().1 <= i < p.len(),
    ensures
        p[i] < 0x80,
{
    let cs = path::component_spans(p);
    path::lemma_component_bounds(p);
    path::lemma_components_ordered(p);
    path::lemma_outside_components(p, 2, i);
    if p[i] != path::SLASH && p[i] != path::DOT {
        let k = choose|k: int| 0 <= k < 2 && (#[trigger] cs[k]).0 <= i < cs[k].1;
        assert(cs[k].1 < cs[cs.len() - 1].0);
    }
}

/// Whatever a narinfo is called, its file lies under that name in the cache directory, with the
/// ending of all narinfo files.
pub proof fn a_narinfo_file_has_its_ending(dir: Seq<u8>, name: Seq<u8>)
    ensures
        narinfo_path(dir, name) == path::joined(dir, name + encode_utf8(".narinfo"@)),
{
    reveal_strlit(".narinfo");
    is_ascii_chars_encode_utf8(".narinfo"@);
    assert(encode_utf8(".narinfo"@) =~= narinfo_suffix());
}

} // verus!
