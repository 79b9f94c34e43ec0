//! Directory-listing logic: which entries are shown, under what links, in
//! what order, and the page around them.
//!
//! An entry of an ongoing round is withheld; a file is shown only when the
//! dispatcher publishes it; a runtime log additionally advertises its two
//! condensed forms as pretend files. Directories come first, then names in
//! ascending order, so listings render identically on every request.
use vstd::prelude::*;

use crate::classify::classify;
use crate::classify::spec_classify;
use crate::text::chars_to_string;
use crate::text::prefix_eq_str;
use crate::text::str_to_chars;

verus! {

/// One visible entry of a listing.
pub struct TraversalItem {
    pub name: String,
    pub path: String,
    pub is_dir: bool,
}

/// The mathematical content of a visible entry.
pub struct ItemView {
    pub name: Seq<char>,
    pub path: Seq<char>,
    pub is_dir: bool,
}

pub open spec fn item_view(i: TraversalItem) -> ItemView {
    ItemView { name: i.name@, path: i.path@, is_dir: i.is_dir }
}

pub open spec fn items_view(s: Seq<TraversalItem>) -> Seq<ItemView> {
    s.map_values(|i: TraversalItem| item_view(i))
}

/// One raw directory entry, as the caller read it: its name, whether it is
/// a directory, and whether the guard withholds it.
pub struct RawEntry {
    pub name: String,
    pub is_dir: bool,
    pub is_ongoing: bool,
}

pub open spec fn raw_view(e: RawEntry) -> (Seq<char>, bool, bool) {
    (e.name@, e.is_dir, e.is_ongoing)
}

/// Lexicographic order on names, by character value.
pub open spec fn lex_le(a: Seq<char>, b: Seq<char>) -> bool
    decreases a.len(),
{
    if a.len() == 0 {
        true
    } else if b.len() == 0 {
        false
    } else if (a[0] as u32) < (b[0] as u32) {
        true
    } else if (a[0] as u32) > (b[0] as u32) {
        false
    } else {
        lex_le(a.skip(1), b.skip(1))
    }
}

/// Listing order: directories before files, names ascending within each.
pub open spec fn item_le(x: ItemView, y: ItemView) -> bool {
    (x.is_dir && !y.is_dir) || (x.is_dir == y.is_dir && lex_le(x.name, y.name))
}

/// The order is total: any two entries compare one way or the other.
pub proof fn lemma_lex_le_total(a: Seq<char>, b: Seq<char>)
    ensures
        lex_le(a, b) || lex_le(b, a),
    decreases a.len(),
{
    if a.len() != 0 && b.len() != 0 && (a[0] as u32) == (b[0] as u32) {
        lemma_lex_le_total(a.skip(1), b.skip(1));
    }
}

pub proof fn lemma_item_le_total(x: ItemView, y: ItemView)
    ensures
        item_le(x, y) || item_le(y, x),
{
    lemma_lex_le_total(x.name, y.name);
}

/// Every adjacent pair is in order.
pub open spec fn sorted_items(s: Seq<ItemView>) -> bool {
    forall|i: int| 0 <= i < s.len() - 1 ==> item_le(#[trigger] s[i], s[i + 1])
}

/// Inserts an entry into a sorted run, keeping it sorted.
pub open spec fn spec_insert_item(s: Seq<ItemView>, v: ItemView) -> Seq<ItemView>
    decreases s.len(),
{
    if s.len() == 0 {
        seq![v]
    } else if item_le(s.last(), v) {
        s.push(v)
    } else {
        spec_insert_item(s.drop_last(), v).push(s.last())
    }
}

/// Sorts the entries by `item_le`, stably from the front.
pub open spec fn spec_sort_items(s: Seq<ItemView>) -> Seq<ItemView>
    decreases s.len(),
{
    if s.len() == 0 {
        Seq::empty()
    } else {
        spec_insert_item(spec_sort_items(s.drop_last()), s.last())
    }
}

proof fn lemma_insert_item_last(s: Seq<ItemView>, v: ItemView)
    ensures
        spec_insert_item(s, v).last() == v || (s.len() > 0 && spec_insert_item(s, v).last()
            == s.last()),
        spec_insert_item(s, v).len() == s.len() + 1,
    decreases s.len(),
{
    if s.len() != 0 && !item_le(s.last(), v) {
        lemma_insert_item_last(s.drop_last(), v);
    }
}

proof fn lemma_insert_item_sorted(s: Seq<ItemView>, v: ItemView)
    requires
        sorted_items(s),
    ensures
        sorted_items(spec_insert_item(s, v)),
    decreases s.len(),
{
    lemma_insert_item_last(s, v);
    if s.len() == 0 {
    } else if item_le(s.last(), v) {
        let r = s.push(v);
        assert forall|i: int| 0 <= i < r.len() - 1 implies item_le(#[trigger] r[i], r[i + 1]) by {
            if i < s.len() - 1 {
                assert(r[i] == s[i] && r[i + 1] == s[i + 1]);
            } else {
                assert(r[i] == s.last() && r[i + 1] == v);
            }
        }
    } else {
        assert(sorted_items(s.drop_last())) by {
            assert(forall|i: int|
                0 <= i < s.len() - 1 ==> #[trigger] s.drop_last()[i] == s[i]);
        }
        lemma_insert_item_sorted(s.drop_last(), v);
        lemma_insert_item_last(s.drop_last(), v);
        let t = spec_insert_item(s.drop_last(), v);
        let r = t.push(s.last());
        lemma_item_le_total(s.last(), v);
        assert(item_le(v, s.last()));
        assert forall|i: int| 0 <= i < r.len() - 1 implies item_le(#[trigger] r[i], r[i + 1]) by {
            if i < t.len() - 1 {
                assert(r[i] == t[i] && r[i + 1] == t[i + 1]);
            } else {
                assert(r[i] == t.last() && r[i + 1] == s.last());
                if t.last() == v {
                } else {
                    assert(s.len() > 1 ==> item_le(s[s.len() - 2], s[s.len() - 1]));
                }
            }
        }
    }
}

/// The sorted listing is sorted.
pub proof fn lemma_sort_items_sorted(s: Seq<ItemView>)
    ensures
        sorted_items(spec_sort_items(s)),
    decreases s.len(),
{
    if s.len() != 0 {
        lemma_sort_items_sorted(s.drop_last());
        lemma_insert_item_sorted(spec_sort_items(s.drop_last()), s.last());
    }
}

/// The sorted listing holds exactly the same entries.
pub proof fn lemma_sort_items_multiset(s: Seq<ItemView>)
    ensures
        spec_sort_items(s).to_multiset() == s.to_multiset(),
    decreases s.len(),
{
    broadcast use vstd::seq_lib::group_to_multiset_ensures;

    if s.len() != 0 {
        lemma_sort_items_multiset(s.drop_last());
        lemma_insert_item_multiset(spec_sort_items(s.drop_last()), s.last());
        assert(s =~= s.drop_last().push(s.last()));
        assert(s.to_multiset() =~= s.drop_last().to_multiset().insert(s.last()));
    }
}

proof fn lemma_insert_item_multiset(s: Seq<ItemView>, v: ItemView)
    ensures
        spec_insert_item(s, v).to_multiset() == s.to_multiset().insert(v),
    decreases s.len(),
{
    broadcast use vstd::seq_lib::group_to_multiset_ensures;

    if s.len() == 0 {
        assert(seq![v] =~= Seq::<ItemView>::empty().push(v));
        assert(spec_insert_item(s, v).to_multiset() =~= s.to_multiset().insert(v));
    } else if item_le(s.last(), v) {
    } else {
        lemma_insert_item_multiset(s.drop_last(), v);
        let t = spec_insert_item(s.drop_last(), v);
        assert(t.push(s.last()).to_multiset() =~= t.to_multiset().insert(s.last()));
        assert(s =~= s.drop_last().push(s.last()));
        assert(s.to_multiset() =~= s.drop_last().to_multiset().insert(s.last()));
        assert(t.to_multiset().insert(s.last()) =~= s.to_multiset().insert(v));
    }
}

fn lex_le_exec(a: &Vec<char>, b: &Vec<char>) -> (r: bool)
    ensures
        r == lex_le(a@, b@),
{
    let mut i: usize = 0;
    proof {
        assert(a@.skip(0) =~= a@);
        assert(b@.skip(0) =~= b@);
    }
    loop
        invariant
            i <= a@.len(),
            i <= b@.len(),
            lex_le(a@, b@) == lex_le(a@.skip(i as int), b@.skip(i as int)),
        decreases a@.len() - i,
    {
        let ghost ta = a@.skip(i as int);
        let ghost tb = b@.skip(i as int);
        if i >= a.len() {
            return true;
        }
        if i >= b.len() {
            proof {
                assert(ta.len() > 0 && tb.len() == 0);
            }
            return false;
        }
        proof {
            assert(ta[0] == a@[i as int] && tb[0] == b@[i as int]);
        }
        if (a[i] as u32) < (b[i] as u32) {
            return true;
        }
        if (a[i] as u32) > (b[i] as u32) {
            return false;
        }
        proof {
            assert(ta.skip(1) =~= a@.skip(i as int + 1));
            assert(tb.skip(1) =~= b@.skip(i as int + 1));
        }
        i = i + 1;
    }
}

fn item_le_exec(x: &TraversalItem, y: &TraversalItem) -> (r: bool)
    ensures
        r == item_le(item_view(*x), item_view(*y)),
{
    if x.is_dir && !y.is_dir {
        true
    } else if x.is_dir != y.is_dir {
        false
    } else {
        let a = str_to_chars(x.name.as_str());
        let b = str_to_chars(y.name.as_str());
        lex_le_exec(&a, &b)
    }
}

fn insert_item(s: Vec<TraversalItem>, v: TraversalItem) -> (r: Vec<TraversalItem>)
    ensures
        items_view(r@) == spec_insert_item(items_view(s@), item_view(v)),
    decreases s@.len(),
{
    let mut s = s;
    if s.len() == 0 {
        s.push(v);
        proof {
            assert(items_view(s@) =~~= seq![item_view(v)]);
        }
        s
    } else {
        let le = item_le_exec(&s[s.len() - 1], &v);
        proof {
            assert(item_view(s@[s@.len() - 1]) == items_view(s@).last());
        }
        if le {
            let ghost old_s = s@;
            s.push(v);
            proof {
                assert(items_view(s@) =~~= items_view(old_s).push(item_view(v)));
            }
            s
        } else {
            let ghost old_s = s@;
            let last = s.pop().unwrap();
            proof {
                assert(items_view(s@) =~~= items_view(old_s).drop_last());
                assert(item_view(last) == items_view(old_s).last());
            }
            let mut r = insert_item(s, v);
            let ghost mid = r@;
            r.push(last);
            proof {
                assert(items_view(r@) =~~= items_view(mid).push(item_view(last)));
            }
            r
        }
    }
}

/// Sorts the listing: directories first, names ascending.
pub fn sort_items(items: Vec<TraversalItem>) -> (r: Vec<TraversalItem>)
    ensures
        items_view(r@) == spec_sort_items(items_view(items@)),
{
    let mut items = items;
    let mut out: Vec<TraversalItem> = Vec::new();
    let ghost iv = items_view(items@);
    let mut i: usize = 0;
    proof {
        assert(items_view(out@) =~~= spec_sort_items(iv.take(0)));
    }
    let total = items.len();
    while i < total
        invariant
            i <= total,
            total == items@.len(),
            iv == items_view(items@),
            iv.len() == total,
            items_view(out@) == spec_sort_items(iv.take(i as int)),
        decreases total - i,
    {
        let ghost old_out = items_view(out@);
        let item = copy_item(&items[i]);
        out = insert_item(out, item);
        proof {
            assert(item_view(items@[i as int]) == iv[i as int]);
            assert(iv.take(i as int + 1).drop_last() =~~= iv.take(i as int));
            assert(iv.take(i as int + 1).last() == iv[i as int]);
            assert(items_view(out@) =~~= spec_sort_items(iv.take(i as int + 1)));
        }
        i = i + 1;
    }
    proof {
        assert(iv.take(total as int) =~~= iv);
    }
    out
}

fn copy_item(i: &TraversalItem) -> (r: TraversalItem)
    ensures
        item_view(r) == item_view(*i),
{
    let name = chars_to_string(&str_to_chars(i.name.as_str()));
    let path = chars_to_string(&str_to_chars(i.path.as_str()));
    TraversalItem { name, path, is_dir: i.is_dir }
}

/// The public link of an entry under the listing's base path.
pub open spec fn spec_item_path(base: Seq<char>, name: Seq<char>) -> Seq<char> {
    if base.len() == 0 {
        "/"@ + name
    } else {
        "/"@ + base + "/"@ + name
    }
}

/// The index of the last dot of a filename, or `-1`.
pub open spec fn last_dot(name: Seq<char>) -> int
    decreases name.len(),
{
    if name.len() == 0 {
        -1
    } else if name.last() == '.' {
        name.len() - 1
    } else {
        last_dot(name.drop_last())
    }
}

/// The filename with its last extension removed.
pub open spec fn file_stem(name: Seq<char>) -> Seq<char> {
    if last_dot(name) >= 0 {
        name.take(last_dot(name))
    } else {
        name
    }
}

proof fn lemma_last_dot_bounds(name: Seq<char>)
    ensures
        -1 <= last_dot(name) < name.len(),
        last_dot(name) >= 0 ==> name[last_dot(name)] == '.',
        last_dot(name) >= 0 ==> forall|j: int|
            last_dot(name) < j < name.len() ==> name[j] != '.',
        last_dot(name) == -1 ==> forall|j: int| 0 <= j < name.len() ==> name[j] != '.',
    decreases name.len(),
{
    if name.len() != 0 && name.last() != '.' {
        lemma_last_dot_bounds(name.drop_last());
        assert(forall|j: int|
            0 <= j < name.len() - 1 ==> #[trigger] name.drop_last()[j] == name[j]);
        if last_dot(name) >= 0 {
            assert forall|j: int| last_dot(name) < j < name.len() implies name[j] != '.' by {
                if j < name.len() - 1 {
                    assert(name.drop_last()[j] != '.');
                }
            }
        } else {
            assert forall|j: int| 0 <= j < name.len() implies name[j] != '.' by {
                if j < name.len() - 1 {
                    assert(name.drop_last()[j] != '.');
                }
            }
        }
    }
}

/// The visible entries of a raw listing, in reading order: ongoing entries
/// withheld, files kept only when publishable, a runtime log advertising
/// its two condensed pretend files.
pub open spec fn spec_raw_items(raws: Seq<(Seq<char>, bool, bool)>, base: Seq<char>) -> Seq<
    ItemView,
>
    decreases raws.len(),
{
    if raws.len() == 0 {
        Seq::empty()
    } else {
        let rest = spec_raw_items(raws.skip(1), base);
        if raws[0].2 {
            rest
        } else if raws[0].1 || spec_classify(raws[0].0) is Some {
            let main = ItemView {
                name: raws[0].0,
                path: spec_item_path(base, raws[0].0),
                is_dir: raws[0].1,
            };
            if !raws[0].1 && file_stem(raws[0].0) == "runtime"@ {
                seq![
                    main,
                    ItemView {
                        name: "runtime.condensed.json"@,
                        path: spec_item_path(base, "runtime.condensed.json"@),
                        is_dir: false,
                    },
                    ItemView {
                        name: "runtime.condensed.txt"@,
                        path: spec_item_path(base, "runtime.condensed.txt"@),
                        is_dir: false,
                    },
                ] + rest
            } else {
                seq![main] + rest
            }
        } else {
            rest
        }
    }
}

/// The listing as served: the visible entries, sorted.
pub open spec fn spec_traversal_items(raws: Seq<(Seq<char>, bool, bool)>, base: Seq<char>) -> Seq<
    ItemView,
> {
    spec_sort_items(spec_raw_items(raws, base))
}

fn item_path_exec(base: &Vec<char>, name: &str) -> (r: String)
    ensures
        r@ == spec_item_path(base@, name@),
{
    let mut out: Vec<char> = Vec::new();
    crate::text::append_str(&mut out, "/");
    if base.len() > 0 {
        crate::text::append_chars(&mut out, base);
        crate::text::append_str(&mut out, "/");
    }
    crate::text::append_str(&mut out, name);
    proof {
        if base@.len() == 0 {
            assert(out@ =~= spec_item_path(base@, name@));
        } else {
            assert(out@ =~= spec_item_path(base@, name@));
        }
    }
    chars_to_string(&out)
}

/// Whether the filename's stem (the name less its last extension) is
/// exactly `runtime`.
fn stem_is_runtime(name: &Vec<char>) -> (r: bool)
    ensures
        r == (file_stem(name@) == "runtime"@),
{
    let mut d: usize = name.len();
    proof {
        lemma_last_dot_bounds(name@);
    }
    while d > 0
        invariant
            d <= name@.len(),
            forall|j: int| d <= j < name@.len() ==> name@[j] != '.',
        decreases d,
    {
        if name[d - 1] == '.' {
            proof {
                lemma_last_dot_bounds(name@);
                assert(last_dot(name@) == d - 1) by {
                    if last_dot(name@) > d as int - 1 {
                        assert(name@[last_dot(name@)] != '.');
                    } else if last_dot(name@) < d as int - 1 {
                        assert(name@[d - 1] != '.');
                    }
                }
            }
            return prefix_eq_str(name, d - 1, "runtime");
        }
        d = d - 1;
    }
    proof {
        lemma_last_dot_bounds(name@);
        assert(last_dot(name@) == -1) by {
            if last_dot(name@) >= 0 {
                assert(name@[last_dot(name@)] != '.');
            }
        }
        assert(name@.take(name@.len() as int) =~= name@);
    }
    prefix_eq_str(name, name.len(), "runtime")
}

/// Builds the listing served for a directory: the caller supplies the raw
/// entries (with the guard's verdict on each) and the directory's path
/// relative to the archive root.
pub fn build_traversal_items(raws: &Vec<RawEntry>, base: &str) -> (r: Vec<TraversalItem>)
    ensures
        items_view(r@) == spec_traversal_items(
            raws@.map_values(|e: RawEntry| raw_view(e)),
            base@,
        ),
{
    let ghost rv = raws@.map_values(|e: RawEntry| raw_view(e));
    let basev = str_to_chars(base);
    let mut acc: Vec<TraversalItem> = Vec::new();
    let mut i: usize = 0;
    proof {
        assert(rv.skip(0) =~= rv);
        assert(items_view(acc@) + spec_raw_items(rv, base@) =~~= spec_raw_items(rv, base@));
    }
    while i < raws.len()
        invariant
            i <= raws@.len(),
            rv == raws@.map_values(|e: RawEntry| raw_view(e)),
            rv.len() == raws@.len(),
            basev@ == base@,
            spec_raw_items(rv, base@) == items_view(acc@) + spec_raw_items(
                rv.skip(i as int),
                base@,
            ),
        decreases raws@.len() - i,
    {
        let ghost t = rv.skip(i as int);
        let ghost old_acc = items_view(acc@);
        proof {
            assert(t[0] == rv[i as int]);
            assert(rv[i as int] == raw_view(raws@[i as int]));
            assert(t.skip(1) =~= rv.skip(i as int + 1));
        }
        let e = &raws[i];
        if !e.is_ongoing {
            let publish = e.is_dir || classify(e.name.as_str()).is_some();
            if publish {
                let namev = str_to_chars(e.name.as_str());
                let item = TraversalItem {
                    name: chars_to_string(&namev),
                    path: item_path_exec(&basev, e.name.as_str()),
                    is_dir: e.is_dir,
                };
                acc.push(item);
                if !e.is_dir && stem_is_runtime(&namev) {
                    acc.push(TraversalItem {
                        name: chars_to_string(&str_to_chars("runtime.condensed.json")),
                        path: item_path_exec(&basev, "runtime.condensed.json"),
                        is_dir: false,
                    });
                    acc.push(TraversalItem {
                        name: chars_to_string(&str_to_chars("runtime.condensed.txt")),
                        path: item_path_exec(&basev, "runtime.condensed.txt"),
                        is_dir: false,
                    });
                    proof {
                        assert(items_view(acc@) =~~= old_acc + spec_raw_items(t, base@).take(3));
                        assert(spec_raw_items(t, base@).skip(3) =~~= spec_raw_items(
                            rv.skip(i as int + 1),
                            base@,
                        ));
                        assert(old_acc + spec_raw_items(t, base@) =~~= items_view(acc@)
                            + spec_raw_items(rv.skip(i as int + 1), base@));
                    }
                } else {
                    proof {
                        assert(items_view(acc@) =~~= old_acc.push(
                            ItemView {
                                name: t[0].0,
                                path: spec_item_path(base@, t[0].0),
                                is_dir: t[0].1,
                            },
                        ));
                        assert(old_acc + spec_raw_items(t, base@) =~~= items_view(acc@)
                            + spec_raw_items(rv.skip(i as int + 1), base@));
                    }
                }
            } else {
                proof {
                    assert(spec_raw_items(t, base@) == spec_raw_items(
                        rv.skip(i as int + 1),
                        base@,
                    ));
                }
            }
        } else {
            proof {
                assert(spec_raw_items(t, base@) == spec_raw_items(rv.skip(i as int + 1), base@));
            }
        }
        i = i + 1;
    }
    proof {
        assert(rv.skip(i as int).len() == 0);
        assert(spec_raw_items(rv.skip(i as int), base@) =~~= Seq::<ItemView>::empty());
        assert(items_view(acc@) =~~= spec_raw_items(rv, base@));
    }
    sort_items(acc)
}

/// The two response headers every published artifact carries: a year-long
/// public cache policy, and the caller's content type.
pub fn headers<'a>(content_type: &'a str) -> (r: [(&'static str, &'a str); 2])
    ensures
        r@.len() == 2,
        r@[0].0@ == "cache-control"@,
        r@[0].1@ == "public, max-age=31536000"@,
        r@[1].0@ == "content-type"@,
        r@[1].1@ == content_type@,
{
    [("cache-control", "public, max-age=31536000"), ("content-type", content_type)]
}

/// One anchor of the breadcrumb line.
pub open spec fn spec_anchor(path: Seq<char>, name: Seq<char>) -> Seq<char> {
    "<a href='"@ + path + "'>"@ + name + "</a>"@
}

/// The breadcrumb anchors from segment `i` on, with the path accumulated
/// so far.
pub open spec fn spec_link_segments_from(segs: Seq<Seq<char>>, i: int, prefix: Seq<char>) -> Seq<
    char,
>
    decreases segs.len() - i,
{
    if i < 0 || i >= segs.len() {
        Seq::empty()
    } else {
        let p = prefix + "/"@ + segs[i];
        spec_anchor(p, segs[i]) + (if i + 1 < segs.len() {
            "/"@
        } else {
            Seq::<char>::empty()
        }) + spec_link_segments_from(segs, i + 1, p)
    }
}

/// The breadcrumb line: each path segment linked to its own listing.
pub open spec fn spec_link_segments(segs: Seq<Seq<char>>) -> Seq<char> {
    spec_link_segments_from(segs, 0, Seq::empty())
}

/// The breadcrumb line for a relative path, given as its segments.
pub fn link_segments(segments: &Vec<String>) -> (r: String)
    ensures
        r@ == spec_link_segments(segments.deep_view()),
{
    let ghost dv = segments.deep_view();
    let mut out: Vec<char> = Vec::new();
    let mut prefix: Vec<char> = Vec::new();
    let mut i: usize = 0;
    proof {
        assert(out@ + spec_link_segments_from(dv, 0, prefix@) =~= spec_link_segments(dv));
    }
    while i < segments.len()
        invariant
            i <= segments@.len(),
            dv == segments.deep_view(),
            segments@.len() == dv.len(),
            spec_link_segments(dv) == out@ + spec_link_segments_from(dv, i as int, prefix@),
        decreases segments@.len() - i,
    {
        let ghost old_out = out@;
        let ghost old_prefix = prefix@;
        crate::text::append_str(&mut prefix, "/");
        crate::text::append_str(&mut prefix, segments[i].as_str());
        proof {
            assert(segments@[i as int]@ == dv[i as int]);
            assert(prefix@ == old_prefix + "/"@ + dv[i as int]);
        }
        crate::text::append_str(&mut out, "<a href='");
        crate::text::append_chars(&mut out, &prefix);
        crate::text::append_str(&mut out, "'>");
        crate::text::append_str(&mut out, segments[i].as_str());
        crate::text::append_str(&mut out, "</a>");
        if i + 1 < segments.len() {
            crate::text::append_str(&mut out, "/");
            proof {
                assert(out@ =~= old_out + spec_anchor(prefix@, dv[i as int]) + "/"@);
            }
        } else {
            proof {
                assert(out@ =~= old_out + spec_anchor(prefix@, dv[i as int]));
            }
        }
        proof {
            assert(spec_link_segments_from(dv, i as int, old_prefix) == spec_anchor(
                prefix@,
                dv[i as int],
            ) + (if i as int + 1 < dv.len() {
                "/"@
            } else {
                Seq::<char>::empty()
            }) + spec_link_segments_from(dv, i as int + 1, prefix@));
            assert(old_out + spec_link_segments_from(dv, i as int, old_prefix) =~= out@
                + spec_link_segments_from(dv, i as int + 1, prefix@));
        }
        i = i + 1;
    }
    chars_to_string(&out)
}

/// The list body of a listing page.
pub open spec fn spec_list_html(items: Seq<ItemView>) -> Seq<char>
    decreases items.len(),
{
    if items.len() == 0 {
        Seq::empty()
    } else {
        spec_item_li(items[0]) + spec_list_html(items.skip(1))
    }
}

/// One list line: the entry's link, directories marked by a trailing
/// slash.
pub open spec fn spec_item_li(it: ItemView) -> Seq<char> {
    "<li><a href='"@ + it.path + "'>"@ + it.name + (if it.is_dir {
        "/"@
    } else {
        Seq::<char>::empty()
    }) + "</a></li>"@
}

/// The path segments joined back into a relative path.
pub open spec fn spec_join_slash(segs: Seq<Seq<char>>) -> Seq<char>
    decreases segs.len(),
{
    if segs.len() == 0 {
        Seq::empty()
    } else if segs.len() == 1 {
        segs[0]
    } else {
        segs[0] + "/"@ + spec_join_slash(segs.skip(1))
    }
}

/// The whole listing page.
pub open spec fn spec_traversal_page(items: Seq<ItemView>, segs: Seq<Seq<char>>) -> Seq<char> {
    "<html><head><title>"@ + spec_join_slash(segs) + "</title></head><body><p>"@
        + spec_link_segments(segs) + "</p><hr /><ul>"@ + spec_list_html(items)
        + "</ul></body></html>"@
}

/// Renders the listing page for a directory: its sorted entries and its
/// path segments relative to the archive root.
pub fn traversal_page(items: &Vec<TraversalItem>, segments: &Vec<String>) -> (r: String)
    ensures
        r@ == spec_traversal_page(items_view(items@), segments.deep_view()),
{
    let ghost dv = segments.deep_view();
    let ghost iv = items_view(items@);
    let mut out: Vec<char> = Vec::new();
    crate::text::append_str(&mut out, "<html><head><title>");
    let mut j: usize = 0;
    let ghost mark1 = out@;
    while j < segments.len()
        invariant
            j <= segments@.len(),
            dv == segments.deep_view(),
            segments@.len() == dv.len(),
            j == 0 ==> out@ == mark1,
            j > 0 ==> out@ == mark1 + spec_join_slash(dv.take(j as int)),
        decreases segments@.len() - j,
    {
        let ghost old_out = out@;
        if j > 0 {
            crate::text::append_str(&mut out, "/");
        }
        crate::text::append_str(&mut out, segments[j].as_str());
        proof {
            assert(segments@[j as int]@ == dv[j as int]);
            lemma_join_slash_take(dv, j as int);
            if j == 0 {
                assert(out@ =~= mark1 + spec_join_slash(dv.take(1)));
            } else {
                assert(out@ =~= mark1 + spec_join_slash(dv.take(j as int + 1)));
            }
        }
        j = j + 1;
    }
    proof {
        if segments@.len() > 0 {
            assert(dv.take(dv.len() as int) =~~= dv);
        } else {
            assert(spec_join_slash(dv) =~= Seq::<char>::empty());
            assert(out@ =~= mark1 + spec_join_slash(dv));
        }
    }
    crate::text::append_str(&mut out, "</title></head><body><p>");
    let crumbs = link_segments(segments);
    crate::text::append_str(&mut out, crumbs.as_str());
    crate::text::append_str(&mut out, "</p><hr /><ul>");
    let ghost mark2 = out@;
    let mut x: usize = 0;
    proof {
        assert(iv.take(0) =~~= Seq::<ItemView>::empty());
        assert(out@ =~= mark2 + spec_list_html(iv.take(0)));
    }
    while x < items.len()
        invariant
            x <= items@.len(),
            iv == items_view(items@),
            items@.len() == iv.len(),
            out@ == mark2 + spec_list_html(iv.take(x as int)),
        decreases items@.len() - x,
    {
        let ghost old_out = out@;
        crate::text::append_str(&mut out, "<li><a href='");
        crate::text::append_str(&mut out, items[x].path.as_str());
        crate::text::append_str(&mut out, "'>");
        crate::text::append_str(&mut out, items[x].name.as_str());
        if items[x].is_dir {
            crate::text::append_str(&mut out, "/");
        }
        crate::text::append_str(&mut out, "</a></li>");
        proof {
            assert(item_view(items@[x as int]) == iv[x as int]);
            assert(out@ =~= old_out + spec_item_li(iv[x as int]));
            lemma_list_html_take(iv, x as int);
            assert(out@ =~= mark2 + spec_list_html(iv.take(x as int + 1)));
        }
        x = x + 1;
    }
    proof {
        assert(iv.take(iv.len() as int) =~~= iv);
    }
    crate::text::append_str(&mut out, "</ul></body></html>");
    proof {
        assert(out@ =~= spec_traversal_page(iv, dv));
    }
    chars_to_string(&out)
}

proof fn lemma_join_slash_take(segs: Seq<Seq<char>>, j: int)
    requires
        0 <= j < segs.len(),
    ensures
        j == 0 ==> spec_join_slash(segs.take(1)) == segs[0],
        j > 0 ==> spec_join_slash(segs.take(j + 1)) == spec_join_slash(segs.take(j)) + "/"@
            + segs[j],
    decreases j,
{
    if j == 0 {
        assert(segs.take(1).len() == 1);
        assert(segs.take(1)[0] == segs[0]);
    } else {
        lemma_join_slash_take(segs, j - 1);
        lemma_join_slash_snoc(segs.take(j + 1));
        assert(segs.take(j + 1).drop_last() =~~= segs.take(j));
        assert(segs.take(j + 1).last() == segs[j]);
    }
}

proof fn lemma_join_slash_snoc(segs: Seq<Seq<char>>)
    requires
        segs.len() >= 2,
    ensures
        spec_join_slash(segs) == spec_join_slash(segs.drop_last()) + "/"@ + segs.last(),
    decreases segs.len(),
{
    if segs.len() == 2 {
        assert(segs.drop_last().len() == 1);
        assert(segs.skip(1).len() == 1);
        assert(segs.skip(1)[0] == segs[1]);
        assert(spec_join_slash(segs.skip(1)) == segs[1]);
        assert(segs.drop_last()[0] == segs[0]);
    } else {
        lemma_join_slash_snoc(segs.skip(1));
        assert(segs.skip(1).drop_last() =~~= segs.drop_last().skip(1));
        assert(segs.skip(1).last() == segs.last());
        assert(segs.drop_last().len() >= 2);
        assert(spec_join_slash(segs.drop_last()) == segs.drop_last()[0] + "/"@ + spec_join_slash(
            segs.drop_last().skip(1),
        ));
        assert(segs.drop_last()[0] == segs[0]);
        assert(spec_join_slash(segs) =~= spec_join_slash(segs.drop_last()) + "/"@ + segs.last());
    }
}

proof fn lemma_list_html_take(items: Seq<ItemView>, x: int)
    requires
        0 <= x < items.len(),
    ensures
        spec_list_html(items.take(x + 1)) == spec_list_html(items.take(x)) + spec_item_li(
            items[x],
        ),
    decreases x,
{
    if x == 0 {
        assert(items.take(1)[0] == items[0]);
        assert(items.take(1).skip(1) =~~= Seq::<ItemView>::empty());
        assert(spec_list_html(Seq::<ItemView>::empty()) =~= Seq::<char>::empty());
        assert(spec_list_html(items.take(1)) == spec_item_li(items.take(1)[0]) + spec_list_html(
            items.take(1).skip(1),
        ));
        assert(spec_list_html(items.take(1)) =~= Seq::<char>::empty() + spec_item_li(items[0]));
        assert(items.take(0) =~~= Seq::<ItemView>::empty());
    } else {
        lemma_list_html_take(items.skip(1), x - 1);
        assert(items.take(x + 1)[0] == items[0]);
        assert(items.take(x + 1).skip(1) =~~= items.skip(1).take(x));
        assert(items.take(x).skip(1) =~~= items.skip(1).take(x - 1));
        assert(items.take(x)[0] == items[0]);
        assert(items.skip(1)[x - 1] == items[x]);
        assert(spec_list_html(items.take(x + 1)) =~= spec_list_html(items.take(x)) + spec_item_li(
            items[x],
        ));
    }
}

} // verus!
