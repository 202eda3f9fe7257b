//! Unix paths as byte strings.
//!
//! A path is read as its components: the root, where it begins with a slash, and the names
//! between slashes. Empty names count for nothing, nor does `.` anywhere but at the beginning.

use crate::text;
use crate::text::{append_run, same_run, split};
use vstd::prelude::*;
use vstd::slice::{slice_subrange, slice_to_vec};

verus! {

/// The byte that separates names.
pub const SLASH: u8 = 0x2f;

/// The byte that `.` consists of.
pub const DOT: u8 = 0x2e;

/// Whether the piece `q` of `p` is a component.
pub open spec fn is_component(p: Seq<u8>, q: (int, int)) -> bool {
    &&& q.0 < q.1
    &&& q.0 == 0 || text::span(p, q) != seq![DOT]
}

/// The spans of the components of `p` after the root.
pub open spec fn component_spans(p: Seq<u8>) -> Seq<(int, int)> {
    text::pieces(p, SLASH).filter(|q: (int, int)| is_component(p, q))
}

/// The names of the components of `p` after the root.
pub open spec fn components(p: Seq<u8>) -> Seq<Seq<u8>> {
    component_spans(p).map_values(|q: (int, int)| text::span(p, q))
}

/// Whether `p` begins at the root.
pub open spec fn is_absolute(p: Seq<u8>) -> bool {
    p.len() > 0 && p[0] == SLASH
}

/// The bytes of a list of paths.
pub open spec fn paths_view(v: Seq<Vec<u8>>) -> Seq<Seq<u8>> {
    v.map_values(|p: Vec<u8>| p@)
}

/// Two paths are the same where their components are.
pub open spec fn same_path(p: Seq<u8>, q: Seq<u8>) -> bool {
    is_absolute(p) == is_absolute(q) && components(p) == components(q)
}

/// `p` under the directory `base`; an absolute `p` stands for itself.
pub open spec fn joined(base: Seq<u8>, p: Seq<u8>) -> Seq<u8> {
    if is_absolute(p) {
        p
    } else if base.len() == 0 || base.last() == SLASH {
        base + p
    } else {
        base.push(SLASH) + p
    }
}

/// What is left of `p` without its last component. The root and the empty path have no parent.
pub open spec fn parent(p: Seq<u8>) -> Option<Seq<u8>> {
    let cs = component_spans(p);
    if cs.len() == 0 {
        None
    } else if cs.len() == 1 {
        Some(p.take(if is_absolute(p) {
            1
        } else {
            0
        }))
    } else {
        Some(p.take(cs[cs.len() - 2].1))
    }
}

/// The last component of `p`, where it is a name: not `.` nor `..`.
pub open spec fn file_name(p: Seq<u8>) -> Option<Seq<u8>> {
    let cs = components(p);
    if cs.len() == 0 || cs.last() == seq![DOT] || cs.last() == seq![DOT, DOT] {
        None
    } else {
        Some(cs.last())
    }
}

/// Every component lies inside the path and is not empty.
pub proof fn lemma_component_bounds(p: Seq<u8>)
    ensures
        forall|k: int|
            0 <= k < component_spans(p).len() ==> {
                let q = #[trigger] component_spans(p)[k];
                0 <= q.0 < q.1 <= p.len()
            },
{
    text::lemma_pieces_bounds(p, SLASH, 0, 0);
    let keep = |q: (int, int)| is_component(p, q);
    assert forall|k: int| 0 <= k < component_spans(p).len() implies {
        let q = #[trigger] component_spans(p)[k];
        0 <= q.0 < q.1 <= p.len()
    } by {
        let q = component_spans(p)[k];
        text::pieces(p, SLASH).lemma_filter_contains_rev(keep, q);
        assert(component_spans(p).contains(q));
        assert(text::pieces(p, SLASH).filter(keep).contains(q));
    }
}

/// Whether the spans in a list come in order.
pub open spec fn in_order(s: Seq<(int, int)>) -> bool {
    forall|a: int, b: int| 0 <= a < b < s.len() ==> (#[trigger] s[a]).1 < (#[trigger] s[b]).0
}

/// The pieces of a path come in order.
proof fn lemma_pieces_ordered(p: Seq<u8>, start: int, i: int)
    requires
        0 <= start <= i <= p.len(),
    ensures
        in_order(text::pieces_from(p, SLASH, start, i)),
    decreases p.len() - i,
{
    if i >= p.len() {
    } else if p[i] == SLASH {
        let rest = text::pieces_from(p, SLASH, i + 1, i + 1);
        lemma_pieces_ordered(p, i + 1, i + 1);
        text::lemma_pieces_bounds(p, SLASH, i + 1, i + 1);
        let all = seq![(start, i)] + rest;
        assert forall|a: int, b: int| 0 <= a < b < all.len() implies (#[trigger] all[a]).1 < (
        #[trigger] all[b]).0 by {
            assert(all[b] == rest[b - 1]);
            if a > 0 {
                assert(all[a] == rest[a - 1]);
            }
        }
    } else {
        lemma_pieces_ordered(p, start, i + 1);
    }
}

/// A part of an ordered list is ordered.
proof fn lemma_filter_in_order(s: Seq<(int, int)>, keep: spec_fn((int, int)) -> bool)
    requires
        in_order(s),
    ensures
        in_order(s.filter(keep)),
    decreases s.len(),
{
    reveal(Seq::filter);
    if s.len() > 0 {
        let rest = s.drop_last();
        lemma_filter_in_order(rest, keep);
        if keep(s.last()) {
            let kept = rest.filter(keep);
            assert forall|a: int|
                0 <= a < kept.len() implies (#[trigger] kept[a]).1 < s.last().0 by {
                assert(kept.contains(kept[a]));
                rest.lemma_filter_contains_rev(keep, kept[a]);
                let j = choose|j: int| 0 <= j < rest.len() && rest[j] == kept[a];
                assert(s[j] == kept[a]);
                assert(s[s.len() - 1] == s.last());
            }
        }
    }
}

/// The components of a path come in order.
pub proof fn lemma_components_ordered(p: Seq<u8>)
    ensures
        in_order(component_spans(p)),
{
    lemma_pieces_ordered(p, 0, 0);
    lemma_filter_in_order(text::pieces(p, SLASH), |q: (int, int)| is_component(p, q));
}

/// The components of a path after the root.
pub fn split_path(p: &[u8]) -> (r: Vec<(usize, usize)>)
    ensures
        text::spans(r@) == component_spans(p@),
{
    let all = split(p, SLASH);
    let ghost keep = |q: (int, int)| is_component(p@, q);
    let ghost model = text::pieces(p@, SLASH);
    proof {
        text::lemma_pieces_bounds(p@, SLASH, 0, 0);
    }
    assert(model.len() == all@.len());
    let dot: [u8; 1] = [DOT];
    let mut out: Vec<(usize, usize)> = Vec::new();
    let mut k: usize = 0;
    assert(model.take(0).filter(keep) =~= Seq::<(int, int)>::empty()) by {
        reveal(Seq::filter);
    }
    while k < all.len()
        invariant
            k <= all@.len(),
            dot@ == seq![DOT],
            text::spans(all@) == model,
            keep == (|q: (int, int)| is_component(p@, q)),
            forall|k: int|
                0 <= k < model.len() ==> {
                    let q = #[trigger] model[k];
                    0 <= q.0 <= q.1 <= p@.len()
                },
            text::spans(out@) == model.take(k as int).filter(keep),
        decreases all@.len() - k,
    {
        let (a, b) = all[k];
        assert(model[k as int] == (a as int, b as int));
        let is_dot = same_run(slice_subrange(p, a, b), dot.as_slice());
        proof {
            reveal(Seq::filter);
            assert(model.take(k + 1).drop_last() =~= model.take(k as int));
        }
        if a < b && (a == 0 || !is_dot) {
            assert(text::spans(out@.push((a, b))) == text::spans(out@).push((a as int, b as int)));
            out.push((a, b));
        }
        k = k + 1;
    }
    assert(model.take(k as int) =~= model);
    out
}

/// The `k`-th component of a path whose components are `cs`.
pub fn component<'a>(p: &'a [u8], cs: &Vec<(usize, usize)>, k: usize) -> (r: &'a [u8])
    requires
        text::spans(cs@) == component_spans(p@),
        k < cs@.len(),
    ensures
        r@ == components(p@)[k as int],
        cs@.len() == components(p@).len(),
{
    proof {
        lemma_component_bounds(p@);
        assert(component_spans(p@)[k as int] == (cs@[k as int].0 as int, cs@[k as int].1 as int));
    }
    let (a, b) = cs[k];
    slice_subrange(p, a, b)
}

/// Whether a path begins at the root.
pub fn absolute(p: &[u8]) -> (r: bool)
    ensures
        r == is_absolute(p@),
{
    p.len() > 0 && p[0] == SLASH
}

/// Whether two paths have the same components.
pub fn paths_equal(p: &[u8], q: &[u8]) -> (r: bool)
    ensures
        r == same_path(p@, q@),
{
    let ps = split_path(p);
    let qs = split_path(q);
    assert(text::spans(ps@).len() == components(p@).len());
    assert(text::spans(qs@).len() == components(q@).len());
    if absolute(p) != absolute(q) || ps.len() != qs.len() {
        return false;
    }
    let mut k: usize = 0;
    while k < ps.len()
        invariant
            k <= ps@.len(),
            ps@.len() == qs@.len(),
            text::spans(ps@) == component_spans(p@),
            text::spans(qs@) == component_spans(q@),
            forall|j: int| 0 <= j < k ==> components(p@)[j] == components(q@)[j],
        decreases ps@.len() - k,
    {
        if !same_run(component(p, &ps, k), component(q, &qs, k)) {
            return false;
        }
        k = k + 1;
    }
    assert(components(p@) =~= components(q@));
    true
}

/// Puts a path under a directory.
pub fn join(base: &[u8], p: &[u8]) -> (r: Vec<u8>)
    ensures
        r@ == joined(base@, p@),
{
    if absolute(p) {
        return slice_to_vec(p);
    }
    let mut out = slice_to_vec(base);
    if base.len() > 0 && base[base.len() - 1] != SLASH {
        out.push(SLASH);
    }
    append_run(&mut out, p);
    out
}

/// Drops the last component of a path.
pub fn parent_dir(p: &[u8]) -> (r: Option<Vec<u8>>)
    ensures
        match r {
            Some(dir) => parent(p@) == Some(dir@),
            None => parent(p@) is None,
        },
{
    let cs = split_path(p);
    proof {
        lemma_component_bounds(p@);
    }
    assert(text::spans(cs@).len() == cs@.len());
    if cs.len() == 0 {
        return None;
    }
    let end: usize = if cs.len() > 1 {
        assert(component_spans(p@)[cs@.len() - 2] == (
            cs@[cs@.len() - 2].0 as int,
            cs@[cs@.len() - 2].1 as int,
        ));
        cs[cs.len() - 2].1
    } else if absolute(p) {
        1
    } else {
        0
    };
    assert(p@.subrange(0, end as int) =~= p@.take(end as int));
    Some(slice_to_vec(slice_subrange(p, 0, end)))
}

/// The name of the file that a path leads to.
pub fn last_name<'a>(p: &'a [u8]) -> (r: Option<&'a [u8]>)
    ensures
        match r {
            Some(name) => file_name(p@) == Some(name@),
            None => file_name(p@) is None,
        },
{
    let cs = split_path(p);
    assert(text::spans(cs@).len() == components(p@).len());
    if cs.len() == 0 {
        return None;
    }
    let name = component(p, &cs, cs.len() - 1);
    let dot: [u8; 1] = [DOT];
    let dots: [u8; 2] = [DOT, DOT];
    assert(dot@ =~= seq![DOT]);
    assert(dots@ =~= seq![DOT, DOT]);
    if same_run(name, dot.as_slice()) || same_run(name, dots.as_slice()) {
        None
    } else {
        Some(name)
    }
}

// ---------------------------------------------------------------------------------------------
// Keys
// ---------------------------------------------------------------------------------------------
/// Names with a slash after each.
pub open spec fn slashed(names: Seq<Seq<u8>>) -> Seq<u8>
    decreases names.len(),
{
    if names.len() == 0 {
        Seq::empty()
    } else {
        slashed(names.drop_last()) + names.last().push(SLASH)
    }
}

/// A byte string that stands for a path in a set: paths with the same components have the same
/// key.
pub open spec fn path_key(p: Seq<u8>) -> Seq<u8> {
    if is_absolute(p) {
        seq![SLASH] + slashed(components(p))
    } else {
        slashed(components(p))
    }
}

/// A component ends at a slash, or where the path does.
pub proof fn lemma_component_ends(p: Seq<u8>, k: int)
    requires
        0 <= k < component_spans(p).len(),
    ensures
        ({
            let q = component_spans(p)[k];
            0 <= q.0 < q.1 <= p.len() && (q.1 == p.len() || p[q.1] == SLASH)
        }),
{
    text::lemma_pieces_ends(p, SLASH, 0, 0);
    lemma_component_bounds(p);
    let keep = |q: (int, int)| is_component(p, q);
    let q = component_spans(p)[k];
    assert(component_spans(p).contains(q));
    text::pieces(p, SLASH).lemma_filter_contains_rev(keep, q);
    let j = choose|j: int| 0 <= j < text::pieces(p, SLASH).len() && text::pieces(p, SLASH)[j] == q;
    assert(text::is_piece(p, SLASH, text::pieces_from(p, SLASH, 0, 0)[j]));
}

/// A component is not empty and holds no slash.
pub proof fn lemma_component_names(p: Seq<u8>)
    ensures
        forall|k: int|
            0 <= k < components(p).len() ==> {
                let c = #[trigger] components(p)[k];
                c.len() > 0 && !c.contains(SLASH)
            },
{
    text::lemma_pieces_ends(p, SLASH, 0, 0);
    lemma_component_bounds(p);
    let keep = |q: (int, int)| is_component(p, q);
    assert forall|k: int| 0 <= k < components(p).len() implies {
        let c = #[trigger] components(p)[k];
        c.len() > 0 && !c.contains(SLASH)
    } by {
        let q = component_spans(p)[k];
        assert(component_spans(p).contains(q));
        text::pieces(p, SLASH).lemma_filter_contains_rev(keep, q);
        let j = choose|j: int|
            0 <= j < text::pieces(p, SLASH).len() && text::pieces(p, SLASH)[j] == q;
        assert(text::is_piece(p, SLASH, text::pieces_from(p, SLASH, 0, 0)[j]));
        let c = components(p)[k];
        assert(c == text::span(p, q));
        if c.contains(SLASH) {
            let i = choose|i: int| 0 <= i < c.len() && c[i] == SLASH;
            assert(p[q.0 + i] == SLASH);
        }
    }
}

/// Names without slashes can be told apart by where the slashes are.
proof fn lemma_slashed_injective(a: Seq<Seq<u8>>, b: Seq<Seq<u8>>)
    requires
        forall|k: int| 0 <= k < a.len() ==> !(#[trigger] a[k]).contains(SLASH),
        forall|k: int| 0 <= k < b.len() ==> !(#[trigger] b[k]).contains(SLASH),
        slashed(a) == slashed(b),
    ensures
        a == b,
    decreases a.len(),
{
    if a.len() == 0 {
        if b.len() > 0 {
            assert(slashed(b).len() > 0);
        }
        assert(a =~= b);
    } else {
        assert(slashed(a).len() > 0);
        assert(b.len() > 0);
        let (x, y) = (a.last(), b.last());
        let (ra, rb) = (slashed(a.drop_last()), slashed(b.drop_last()));
        let s = slashed(a);
        assert(a[a.len() - 1] == x);
        assert(b[b.len() - 1] == y);
        lemma_slashed_end(a.drop_last());
        lemma_slashed_end(b.drop_last());
        if x.len() < y.len() {
            let i = ra.len() - 1;
            let j = i - rb.len();
            assert(ra.len() > 0);
            assert(s[i] == SLASH);
            assert(s[i] == y[j]);
            assert(y.contains(SLASH));
        } else if y.len() < x.len() {
            let i = rb.len() - 1;
            let j = i - ra.len();
            assert(s[i] == SLASH);
            assert(s[i] == x[j]);
            assert(x.contains(SLASH));
        }
        assert(x =~= y) by {
            assert forall|i: int| 0 <= i < x.len() implies x[i] == y[i] by {
                assert(s[ra.len() + i] == x[i]);
                assert(s[rb.len() + i] == y[i]);
            }
        }
        assert(ra =~= rb) by {
            assert forall|i: int| 0 <= i < ra.len() implies ra[i] == rb[i] by {
                assert(s[i] == ra[i]);
                assert(s[i] == rb[i]);
            }
        }
        lemma_slashed_injective(a.drop_last(), b.drop_last());
        assert(a =~= a.drop_last().push(x));
        assert(b =~= b.drop_last().push(y));
    }
}

proof fn lemma_slashed_end(names: Seq<Seq<u8>>)
    ensures
        slashed(names).len() > 0 ==> slashed(names).last() == SLASH,
{
}

/// Two paths have the same key exactly where they have the same components.
pub proof fn lemma_key_tells_paths_apart(p: Seq<u8>, q: Seq<u8>)
    ensures
        path_key(p) == path_key(q) <==> same_path(p, q),
{
    lemma_component_names(p);
    lemma_component_names(q);
    if path_key(p) == path_key(q) {
        lemma_key_first(p);
        lemma_key_first(q);
        if is_absolute(p) {
            assert(slashed(components(p)) =~= path_key(p).skip(1));
            assert(slashed(components(q)) =~= path_key(q).skip(1));
        }
        lemma_slashed_injective(components(p), components(q));
    }
}

proof fn lemma_key_first(p: Seq<u8>)
    ensures
        is_absolute(p) <==> path_key(p).len() > 0 && path_key(p)[0] == SLASH,
{
    lemma_component_names(p);
    if !is_absolute(p) {
        lemma_slashed_first(components(p));
    }
}

proof fn lemma_slashed_first(names: Seq<Seq<u8>>)
    requires
        forall|k: int|
            0 <= k < names.len() ==> {
                let c = #[trigger] names[k];
                c.len() > 0 && !c.contains(SLASH)
            },
    ensures
        slashed(names).len() > 0 ==> slashed(names)[0] != SLASH,
    decreases names.len(),
{
    if names.len() > 0 {
        lemma_slashed_first(names.drop_last());
        let c = names[names.len() - 1];
        assert(c.contains(c[0]));
        if names.len() == 1 {
            assert(slashed(names.drop_last()).len() == 0);
            assert(slashed(names)[0] == c[0]);
        } else {
            let d = names[names.len() - 2];
            assert(names.drop_last().last() == d);
            assert(slashed(names.drop_last()).len() > 0);
            assert(slashed(names)[0] == slashed(names.drop_last())[0]);
        }
    }
}

/// The key of a path.
pub fn key_of(p: &[u8]) -> (r: Vec<u8>)
    ensures
        r@ == path_key(p@),
{
    let cs = split_path(p);
    let ghost names = components(p@);
    assert(text::spans(cs@).len() == names.len());
    let mut out: Vec<u8> = Vec::new();
    if absolute(p) {
        out.push(SLASH);
    }
    let ghost head = out@;
    let mut k: usize = 0;
    assert(names.take(0) =~= Seq::<Seq<u8>>::empty());
    assert(out@ =~= head + slashed(names.take(0)));
    while k < cs.len()
        invariant
            text::spans(cs@) == component_spans(p@),
            names == components(p@),
            cs@.len() == names.len(),
            k <= cs@.len(),
            out@ == head + slashed(names.take(k as int)),
        decreases cs@.len() - k,
    {
        append_run(&mut out, component(p, &cs, k));
        out.push(SLASH);
        assert(names.take(k + 1).drop_last() =~= names.take(k as int));
        assert(out@ =~= head + slashed(names.take(k + 1)));
        k = k + 1;
    }
    assert(names.take(k as int) =~= names);
    assert(out@ =~= path_key(p@));
    out
}

// ---------------------------------------------------------------------------------------------
// Cutting a path short
// ---------------------------------------------------------------------------------------------
/// The beginning of `p` that ends with its `n`-th component.
pub open spec fn first_components(p: Seq<u8>, n: int) -> Seq<u8> {
    p.take(component_spans(p)[n - 1].1)
}

/// A path that is cut short after `n` components has the first `n` components and no other.
pub proof fn lemma_first_components(p: Seq<u8>, n: int)
    requires
        0 < n <= component_spans(p).len(),
    ensures
        components(first_components(p, n)) == components(p).take(n),
        is_absolute(first_components(p, n)) == is_absolute(p),
{
    let cs = component_spans(p);
    let end = cs[n - 1].1;
    let part = p.take(end);
    let keep = |q: (int, int)| is_component(p, q);
    let keep_part = |q: (int, int)| is_component(part, q);
    lemma_component_bounds(p);
    lemma_components_ordered(p);
    text::lemma_pieces_ends(p, SLASH, 0, 0);
    let all = text::pieces(p, SLASH);
    assert(cs.contains(cs[n - 1]));
    all.lemma_filter_contains_rev(keep, cs[n - 1]);
    let j = choose|j: int| 0 <= j < all.len() && all[j] == cs[n - 1];
    assert(text::is_piece(p, SLASH, text::pieces_from(p, SLASH, 0, 0)[j]));
    let head = text::pieces(part, SLASH);
    text::lemma_pieces_bounds(part, SLASH, 0, 0);
    let tail = if end < p.len() {
        text::pieces_from(p, SLASH, end + 1, end + 1)
    } else {
        Seq::empty()
    };
    if end < p.len() {
        text::lemma_pieces_of_part(p, SLASH, end, 0, 0);
        text::lemma_pieces_bounds(p, SLASH, end + 1, end + 1);
    } else {
        assert(part =~= p);
    }
    assert(all =~= head + tail);
    Seq::filter_distributes_over_add(head, tail, keep);
    assert forall|k: int| 0 <= k < head.len() implies keep(#[trigger] head[k]) == keep_part(
        head[k],
    ) by {
        assert(text::span(p, head[k]) =~= text::span(part, head[k]));
    }
    lemma_same_filter(head, keep, keep_part);
    let kept = head.filter(keep);
    let left = tail.filter(keep);
    assert(cs =~= kept + left);
    if kept.len() < n {
        assert(left.contains(left[n - 1 - kept.len()]));
        tail.lemma_filter_contains_rev(keep, left[n - 1 - kept.len()]);
        assert(cs[n - 1] == left[n - 1 - kept.len()]);
        let i = choose|i: int| 0 <= i < tail.len() && tail[i] == cs[n - 1];
        assert(tail[i].0 > end);
    }
    if kept.len() > n {
        assert(cs[n] == kept[n]);
        assert(kept.contains(kept[n]));
        head.lemma_filter_contains_rev(keep, kept[n]);
        let i = choose|i: int| 0 <= i < head.len() && head[i] == kept[n];
        assert(head[i].1 <= end);
        assert(cs[n - 1].1 < cs[n].0);
    }
    assert(component_spans(part) =~= kept);
    assert forall|k: int| 0 <= k < n implies components(part)[k] == components(p)[k] by {
        assert(kept[k] == cs[k]);
        assert(kept.contains(kept[k]));
        head.lemma_filter_contains_rev(keep, kept[k]);
        let i = choose|i: int| 0 <= i < head.len() && head[i] == kept[k];
        assert(head[i].1 <= end);
        assert(text::span(part, kept[k]) =~= text::span(p, kept[k]));
    }
    assert(components(part) =~= components(p).take(n));
}

/// Filters that agree on a list give the same.
pub proof fn lemma_same_filter(
    s: Seq<(int, int)>,
    f: spec_fn((int, int)) -> bool,
    g: spec_fn((int, int)) -> bool,
)
    requires
        forall|k: int| 0 <= k < s.len() ==> f(#[trigger] s[k]) == g(s[k]),
    ensures
        s.filter(f) == s.filter(g),
    decreases s.len(),
{
    reveal(Seq::filter);
    if s.len() > 0 {
        lemma_same_filter(s.drop_last(), f, g);
        assert(s.last() == s[s.len() - 1]);
    }
}

/// A filter that keeps the first of a list begins with it.
pub proof fn lemma_filter_first(s: Seq<(int, int)>, keep: spec_fn((int, int)) -> bool)
    requires
        s.len() > 0,
        keep(s[0]),
    ensures
        s.filter(keep).len() > 0,
        s.filter(keep)[0] == s[0],
    decreases s.len(),
{
    reveal(Seq::filter);
    if s.len() > 1 {
        lemma_filter_first(s.drop_last(), keep);
    } else {
        assert(s.drop_last().filter(keep) =~= Seq::<(int, int)>::empty());
    }
}

/// A name that is put under a directory is the name of what is there.
pub proof fn lemma_joined_name(base: Seq<u8>, name: Seq<u8>)
    requires
        name.len() > 0,
        !name.contains(SLASH),
        name != seq![DOT],
        name != seq![DOT, DOT],
    ensures
        file_name(joined(base, name)) == Some(name),
{
    assert(name.contains(name[0]));
    let p = joined(base, name);
    let start = p.len() - name.len();
    assert(p.skip(start) =~= name);
    assert forall|i: int| start <= i < p.len() implies #[trigger] p[i] != SLASH by {
        assert(p[i] == name[i - start]);
        assert(name.contains(name[i - start]));
    }
    let last = (start, p.len() as int);
    text::lemma_last_piece(p, SLASH, start, start);
    let all = text::pieces(p, SLASH);
    if start > 0 {
        assert(p[start - 1] == SLASH);
        text::lemma_pieces_of_part(p, SLASH, start - 1, 0, 0);
    }
    assert(all.len() > 0 && all.last() == last);
    let keep = |q: (int, int)| is_component(p, q);
    assert(text::span(p, last) =~= name);
    assert(keep(last));
    assert(component_spans(p) =~= all.drop_last().filter(keep).push(last)) by {
        reveal(Seq::filter);
    }
    assert(components(p).last() == name);
}

// ---------------------------------------------------------------------------------------------
// Files
// ---------------------------------------------------------------------------------------------
/// The files after something was written to one of them.
pub open spec fn files_written(
    files: Map<Seq<u8>, Seq<u8>>,
    file: Seq<u8>,
    contents: Seq<u8>,
) -> Map<Seq<u8>, Seq<u8>> {
    files.insert(file, contents)
}

/// The files after one of them took the name of another.
pub open spec fn files_renamed(
    files: Map<Seq<u8>, Seq<u8>>,
    from: Seq<u8>,
    to: Seq<u8>,
) -> Map<Seq<u8>, Seq<u8>> {
    files.remove(from).insert(to, files[from])
}

// ---------------------------------------------------------------------------------------------
// Laws
// ---------------------------------------------------------------------------------------------
/// A path is read from left to right: what stands before a slash, and then what stands behind it.
pub proof fn a_path_is_read_from_left_to_right(a: Seq<u8>, b: Seq<u8>)
    ensures
        components(a.push(SLASH) + b) == components(a) + components(seq![SLASH] + b),
{
    let s = a.push(SLASH) + b;
    let t = seq![SLASH] + b;
    let n = a.len() + 1;
    let none = Seq::<u8>::empty();
    let (pa, pb) = (text::pieces(a, SLASH), text::pieces(b, SLASH));
    text::lemma_pieces_of_two(a, SLASH, b);
    text::lemma_pieces_of_two(none, SLASH, b);
    assert(none.push(SLASH) + b =~= t);
    text::lemma_pieces_bounds(a, SLASH, 0, 0);
    text::lemma_pieces_bounds(b, SLASH, 0, 0);
    let (ms, mt) = (text::moved(pb, n as int), text::moved(pb, 1));
    assert(text::pieces(none, SLASH) =~= seq![(0int, 0int)]);
    let keep_s = |q: (int, int)| is_component(s, q);
    let keep_t = |q: (int, int)| is_component(t, q);
    let keep_a = |q: (int, int)| is_component(a, q);
    let map_s = |q: (int, int)| text::span(s, q);
    let map_t = |q: (int, int)| text::span(t, q);
    let map_a = |q: (int, int)| text::span(a, q);
    text::lemma_kept_of_two(pa, ms, keep_s, map_s);
    text::lemma_kept_of_two(seq![(0int, 0int)], mt, keep_t, map_t);
    assert(seq![(0int, 0int)].filter(keep_t) =~= Seq::<(int, int)>::empty()) by {
        reveal(Seq::filter);
        reveal_with_fuel(Seq::filter, 2);
    }
    assert forall|k: int| 0 <= k < pa.len() implies keep_s(#[trigger] pa[k]) == keep_a(pa[k]) && (
    keep_s(pa[k]) ==> map_s(pa[k]) == map_a(pa[k])) by {
        assert(text::span(s, pa[k]) =~= text::span(a, pa[k]));
    }
    text::lemma_same_kept(pa, pa, keep_s, keep_a, map_s, map_a);
    assert forall|k: int| 0 <= k < ms.len() implies keep_s(#[trigger] ms[k]) == keep_t(mt[k]) && (
    keep_s(ms[k]) ==> map_s(ms[k]) == map_t(mt[k])) by {
        let q = pb[k];
        assert(text::span(s, ms[k]) =~= text::span(b, q));
        assert(text::span(t, mt[k]) =~= text::span(b, q));
    }
    text::lemma_same_kept(ms, mt, keep_s, keep_t, map_s, map_t);
    assert(components(s) =~= pa.filter(keep_s).map_values(map_s) + ms.filter(keep_s).map_values(
        map_s,
    ));
    assert(components(t) =~= mt.filter(keep_t).map_values(map_t));
    assert(components(a) =~= pa.filter(keep_a).map_values(map_a));
}

/// A path is read name by name: every name behind a slash is one more component, unless it is empty
/// or `.`, and what has no slash is one component, unless it is empty.
pub proof fn a_path_is_read_name_by_name(p: Seq<u8>, name: Seq<u8>)
    requires
        !name.contains(SLASH),
    ensures
        components(p.push(SLASH) + name) == (if name.len() == 0 || name == seq![DOT] {
            components(p)
        } else {
            components(p).push(name)
        }),
        components(name) == (if name.len() == 0 {
            Seq::<Seq<u8>>::empty()
        } else {
            seq![name]
        }),
{
    assert forall|j: int| 0 <= j < name.len() implies #[trigger] name[j] != SLASH by {
        assert(name.contains(name[j]));
    }
    reveal(Seq::filter);
    reveal_with_fuel(Seq::filter, 3);
    text::lemma_last_piece(name, SLASH, 0, 0);
    let n = name.len() as int;
    assert(text::span(name, (0, n)) =~= name);
    let one = seq![(0int, n)];
    assert(one.drop_last() =~= Seq::<(int, int)>::empty());
    assert(components(name) =~= (if name.len() == 0 {
        Seq::<Seq<u8>>::empty()
    } else {
        seq![name]
    }));
    a_path_is_read_from_left_to_right(p, name);
    let t = seq![SLASH] + name;
    let none = Seq::<u8>::empty();
    text::lemma_pieces_of_two(none, SLASH, name);
    assert(none.push(SLASH) + name =~= t);
    assert(text::pieces(none, SLASH) =~= seq![(0int, 0int)]);
    let all = seq![(0int, 0int), (1int, n + 1)];
    assert(text::pieces(t, SLASH) =~= all);
    assert(text::span(t, (1, n + 1)) =~= name);
    assert(all.drop_last() =~= seq![(0int, 0int)]);
    assert(all.drop_last().drop_last() =~= Seq::<(int, int)>::empty());
    if name.len() == 0 || name == seq![DOT] {
        assert(components(t) =~= Seq::<Seq<u8>>::empty());
        assert(components(p) + components(t) =~= components(p));
    } else {
        assert(components(t) =~= seq![name]);
        assert(components(p) + components(t) =~= components(p).push(name));
    }
}

/// A path is put under a directory with one slash between them, unless there is one already or
/// nothing to put it under; a path that begins with a slash stands for itself. Its components are
/// those of the directory and then its own.
pub proof fn a_path_is_put_under_a_directory(base: Seq<u8>, p: Seq<u8>)
    ensures
        p.len() > 0 && p[0] == 0x2f ==> joined(base, p) == p,
        p.len() == 0 || p[0] != 0x2f ==> {
            let slash = base.len() > 0 && base.last() != 0x2f;
            &&& base.is_prefix_of(joined(base, p))
            &&& p.is_suffix_of(joined(base, p))
            &&& joined(base, p).len() == base.len() + p.len() + (if slash {
                1int
            } else {
                0int
            })
            &&& slash ==> joined(base, p)[base.len() as int] == 0x2f
            &&& base.len() > 0 ==> components(joined(base, p)) == components(base) + components(
                seq![0x2fu8] + p,
            )
            &&& base.len() > 0 ==> is_absolute(joined(base, p)) == is_absolute(base)
        },
{
    if p.len() == 0 || p[0] != 0x2f {
        let j = joined(base, p);
        assert(j.subrange(0, base.len() as int) =~= base);
        assert(j.subrange(j.len() - p.len(), j.len() as int) =~= p);
        if base.len() > 0 {
            if base.last() == 0x2f {
                let a = base.drop_last();
                let none = Seq::<u8>::empty();
                a_path_is_read_from_left_to_right(a, p);
                a_path_is_read_name_by_name(a, none);
                assert(a.push(SLASH) =~= base);
                assert(a.push(SLASH) + none =~= base);
            } else {
                a_path_is_read_from_left_to_right(base, p);
            }
        }
    }
}

/// The directory that something is in has all of its components but the last, begins where it
/// begins, and is there wherever there is a component.
pub proof fn a_parent_lacks_the_last_component(p: Seq<u8>)
    ensures
        parent(p) is None <==> components(p).len() == 0,
        parent(p) matches Some(dir) ==> {
            &&& components(dir) == components(p).drop_last()
            &&& dir.len() < p.len() || dir == p
            &&& dir.is_prefix_of(p)
            &&& is_absolute(dir) == is_absolute(p)
        },
{
    let cs = component_spans(p);
    assert(cs.len() == components(p).len());
    lemma_component_bounds(p);
    if cs.len() > 0 {
        let dir = parent(p)->0;
        assert(p.subrange(0, dir.len() as int) =~= dir);
        let none = Seq::<u8>::empty();
        a_path_is_read_name_by_name(none, none);
        if cs.len() == 1 {
            if is_absolute(p) {
                assert(dir =~= none.push(SLASH) + none);
            } else {
                assert(dir =~= none);
            }
            assert(components(dir) =~= components(p).drop_last());
        } else {
            lemma_first_components(p, cs.len() - 1);
            assert(components(p).take(cs.len() - 1) =~= components(p).drop_last());
        }
    }
}

/// The name of a file is what stands behind the last slash. Slashes at the end, and `.` behind
/// them, do not count, and `..` is no name.
pub proof fn a_file_name_stands_behind_the_last_slash(p: Seq<u8>, name: Seq<u8>)
    requires
        !name.contains(SLASH),
        name.len() > 0,
        name != seq![DOT],
    ensures
        file_name(p.push(SLASH) + name) == (if name == seq![DOT, DOT] {
            None::<Seq<u8>>
        } else {
            Some(name)
        }),
        file_name(name) == (if name == seq![DOT, DOT] {
            None::<Seq<u8>>
        } else {
            Some(name)
        }),
        file_name(p.push(SLASH)) == file_name(p),
        file_name(p.push(SLASH).push(DOT)) == file_name(p),
        file_name(Seq::<u8>::empty()) is None,
        file_name(seq![DOT]) is None,
{
    let none = Seq::<u8>::empty();
    let dot = seq![DOT];
    assert(!dot.contains(SLASH));
    a_path_is_read_name_by_name(p, name);
    a_path_is_read_name_by_name(p, none);
    a_path_is_read_name_by_name(p, dot);
    assert(p.push(SLASH) + none =~= p.push(SLASH));
    assert(p.push(SLASH) + dot =~= p.push(SLASH).push(DOT));
    assert(components(p).push(name).last() == name);
}

/// Only the first component of a path that does not begin with a slash can be `.`.
proof fn lemma_dots_come_first(p: Seq<u8>, k: int)
    requires
        0 <= k < components(p).len(),
        components(p)[k] == seq![DOT],
    ensures
        k == 0,
        !is_absolute(p),
{
    let keep = |q: (int, int)| is_component(p, q);
    let cs = component_spans(p);
    let q = cs[k];
    lemma_component_bounds(p);
    lemma_components_ordered(p);
    assert(cs.contains(q));
    text::pieces(p, SLASH).lemma_filter_contains_rev(keep, q);
    assert(keep(q)) by {
        text::pieces(p, SLASH).lemma_filter_pred(keep, k);
    }
    assert(q.0 == 0);
    if k > 0 {
        assert(cs[0].1 < cs[k].0);
        assert(0 <= cs[0].0);
    }
    assert(text::span(p, q)[0] == p[0]);
}

proof fn lemma_slashed_components(head: Seq<u8>, names: Seq<Seq<u8>>)
    requires
        head == Seq::<u8>::empty() || head == seq![SLASH],
        forall|k: int|
            0 <= k < names.len() ==> {
                let c = #[trigger] names[k];
                c.len() > 0 && !c.contains(SLASH) && (c == seq![DOT] ==> k == 0 && head.len() == 0)
            },
    ensures
        components(head + slashed(names)) == names,
    decreases names.len(),
{
    let none = Seq::<u8>::empty();
    a_path_is_read_name_by_name(none, none);
    if names.len() == 0 {
        assert(head + slashed(names) =~= head);
        assert(none.push(SLASH) + none =~= seq![SLASH]);
        assert(components(head) =~= names);
    } else {
        let shorter = names.drop_last();
        let c = names[names.len() - 1];
        let before = head + slashed(shorter);
        lemma_slashed_components(head, shorter);
        lemma_slashed_end(shorter);
        let body = before + c;
        assert(head + slashed(names) =~= body.push(SLASH) + none);
        a_path_is_read_name_by_name(body, none);
        if before.len() == 0 {
            assert(body =~= c);
            a_path_is_read_name_by_name(none, c);
            assert(shorter.len() == 0) by {
                if shorter.len() > 0 {
                    assert(slashed(shorter).len() > 0);
                }
            }
            assert(seq![c] =~= names);
        } else {
            assert(before.last() == SLASH);
            let a = before.drop_last();
            assert(a.push(SLASH) =~= before);
            assert(a.push(SLASH) + none =~= before);
            a_path_is_read_name_by_name(a, none);
            if c == seq![DOT] {
                assert(head.len() == 0 && shorter.len() == 0);
                assert(before.len() == 0);
            }
            a_path_is_read_name_by_name(a, c);
            assert(a.push(SLASH) + c =~= body);
            assert(shorter.push(c) =~= names);
        }
    }
}

/// The key of a path is itself a way to write the path.
pub proof fn a_key_is_a_path(p: Seq<u8>)
    ensures
        components(path_key(p)) == components(p),
        is_absolute(path_key(p)) == is_absolute(p),
        same_path(path_key(p), p),
{
    let head = if is_absolute(p) {
        seq![SLASH]
    } else {
        Seq::empty()
    };
    let names = components(p);
    lemma_component_names(p);
    assert forall|k: int| 0 <= k < names.len() implies {
        let c = #[trigger] names[k];
        c.len() > 0 && !c.contains(SLASH) && (c == seq![DOT] ==> k == 0 && head.len() == 0)
    } by {
        if names[k] == seq![DOT] {
            lemma_dots_come_first(p, k);
        }
    }
    lemma_slashed_components(head, names);
    assert(head + slashed(names) =~= path_key(p));
    lemma_key_first(p);
}

/// Where three components fill a path but for the slashes before them, the third one ends it.
pub proof fn lemma_third_component(p: Seq<u8>, x: Seq<u8>, y: Seq<u8>, z: Seq<u8>)
    requires
        components(p).len() == 3,
        components(p)[0] == x,
        components(p)[1] == y,
        components(p)[2] == z,
        p.len() == x.len() + y.len() + z.len() + 3,
        is_absolute(p),
    ensures
        component_spans(p).len() == 3,
        component_spans(p)[2] == (p.len() - z.len(), p.len() as int),
{
    let cs = component_spans(p);
    lemma_component_bounds(p);
    lemma_components_ordered(p);
    lemma_component_names(p);
    assert(cs.len() == components(p).len());
    let (a, b, c) = (cs[0], cs[1], cs[2]);
    assert(x == text::span(p, a) && y == text::span(p, b) && z == text::span(p, c));
    assert(a.1 - a.0 == x.len() && b.1 - b.0 == y.len() && c.1 - c.0 == z.len());
    if a.0 == 0 {
        assert(x[0] == p[0]);
        assert(x.contains(x[0]));
    }
    assert(a.1 < b.0 && b.1 < c.0);
}

/// Two paths are the same exactly where both begin with a slash, or neither does, and they have as
/// many components, each the same as the other's. Paths that lead to other names are not.
pub proof fn the_same_path_has_the_same_components(p: Seq<u8>, q: Seq<u8>)
    ensures
        same_path(p, q) <==> {
            &&& (p.len() > 0 && p[0] == 0x2f) == (q.len() > 0 && q[0] == 0x2f)
            &&& components(p).len() == components(q).len()
            &&& forall|k: int|
                0 <= k < components(p).len() ==> #[trigger] components(p)[k] == components(q)[k]
        },
        same_path(p, q) ==> file_name(p) == file_name(q),
        same_path(p, p),
        same_path(p, q) == same_path(q, p),
{
    if components(p).len() == components(q).len() && forall|k: int|
        0 <= k < components(p).len() ==> #[trigger] components(p)[k] == components(q)[k] {
        assert(components(p) =~= components(q));
    }
}

/// Writing puts the contents into one file, renaming moves them from one to another, and no other
/// file changes.
pub proof fn files_are_changed_one_at_a_time(
    files: Map<Seq<u8>, Seq<u8>>,
    file: Seq<u8>,
    to: Seq<u8>,
    contents: Seq<u8>,
    other: Seq<u8>,
)
    ensures
        files_written(files, file, contents).contains_key(file),
        files_written(files, file, contents)[file] == contents,
        other != file ==> files_written(files, file, contents).contains_key(other)
            == files.contains_key(other) && files_written(files, file, contents)[other]
            == files[other],
        files_renamed(files, file, to).contains_key(to),
        files_renamed(files, file, to)[to] == files[file],
        to != file ==> !files_renamed(files, file, to).contains_key(file),
        other != file && other != to ==> files_renamed(files, file, to).contains_key(other)
            == files.contains_key(other) && files_renamed(files, file, to)[other] == files[other],
{
}

/// A list of paths is taken as it is.
pub proof fn a_list_of_paths_is_taken_whole(v: Seq<Vec<u8>>, k: int)
    ensures
        paths_view(v).len() == v.len(),
        0 <= k < v.len() ==> paths_view(v)[k] == v[k]@,
{
}

/// A parent ends where its last component does: nothing of what parts it from the rest is left. It
/// is the root, or empty, where it has no component.
pub proof fn a_parent_ends_with_its_last_component(p: Seq<u8>)
    ensures
        parent(p) matches Some(dir) ==> {
            &&& components(dir).len() > 0 ==> components(dir).last().is_suffix_of(dir)
            &&& components(dir).len() == 0 ==> dir == (if p[0] == 0x2f {
                seq![0x2fu8]
            } else {
                Seq::empty()
            })
        },
{
    let cs = component_spans(p);
    lemma_component_bounds(p);
    if let Some(dir) = parent(p) {
        a_parent_lacks_the_last_component(p);
        if cs.len() > 1 {
            let q = cs[cs.len() - 2];
            assert(components(dir).last() == components(p)[cs.len() - 2]);
            assert(text::span(p, q) =~= dir.subrange(dir.len() - (q.1 - q.0), dir.len() as int));
        } else {
            assert(components(dir).len() == 0);
            assert(cs[0].0 < cs[0].1 <= p.len());
            assert(dir =~= (if p[0] == 0x2f {
                seq![0x2fu8]
            } else {
                Seq::empty()
            }));
        }
    }
}

/// What stands outside the components of a path, before the one at `first` and behind the last, is
/// made of slashes, dots and the components before it.
pub proof fn lemma_outside_components(p: Seq<u8>, first: int, i: int)
    requires
        0 <= first < component_spans(p).len(),
        0 <= i < component_spans(p)[first].0 || component_spans(p).last().1 <= i < p.len(),
    ensures
        ({
            let cs = component_spans(p);
            ||| p[i] == SLASH
            ||| p[i] == DOT
            ||| exists|k: int| 0 <= k < first && (#[trigger] cs[k]).0 <= i < cs[k].1
        }),
{
    broadcast use vstd::seq_lib::group_filter_ensures;

    let cs = component_spans(p);
    let ps = text::pieces(p, SLASH);
    let keep = |q: (int, int)| is_component(p, q);
    lemma_component_bounds(p);
    lemma_components_ordered(p);
    if p[i] != SLASH {
        text::lemma_pieces_cover(p, SLASH, 0, 0, i);
        let m = choose|m: int| 0 <= m < ps.len() && (#[trigger] ps[m]).0 <= i < ps[m].1;
        let q = ps[m];
        if is_component(p, q) {
            assert(keep(ps[m]));
            assert(cs.contains(q));
            let k = choose|k: int| 0 <= k < cs.len() && cs[k] == q;
            assert(0 <= cs[k].0 < cs[k].1 <= p.len());
            if k >= first {
                if k > first {
                    assert(cs[first].1 < cs[k].0);
                }
                if k < cs.len() - 1 {
                    assert(cs[k].1 < cs[cs.len() - 1].0);
                }
            }
        } else {
            text::lemma_pieces_bounds(p, SLASH, 0, 0);
            assert(text::span(p, q) == seq![DOT]);
            assert(text::span(p, q)[i - q.0] == p[i]);
        }
    }
}

} // verus!
