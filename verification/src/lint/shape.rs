//! `PV404` over pages as rendered: each view's shape (literal HTML, partials, the
//! layout's `content`, branches and loops), a page's shape with its layout and partials
//! in place, the count of `<h1>` over every state of it, and the heading levels it may
//! skip, judged as an abstract interpretation over branches and loops.

use vstd::prelude::*;
use crate::lint::template::headings_from;
use crate::lint::{Ctx, RuleId};
use crate::lint::web::{recorded_as, strings_v, FSpec};
use crate::text::{chars_of, decimal, lowered, newlines, push_str};

verus! {

/// A piece of a page as rendered.
#[derive(Debug)]
pub enum Item {
    /// Literal HTML, with the line it starts on.
    Text(String, u32),
    /// `render('<name>')`: the partial's shape belongs here.
    Partial(String),
    /// `content`: where a layout places the view.
    Content,
    /// Each alternative of an `if`, the implicit empty `else` included.
    Branch(Vec<Vec<Item>>),
    /// A loop body: rendered any number of times.
    Loop(Vec<Item>),
}

/// One view: its file, its shape, the partials it includes and the layout it asks for.
#[derive(Debug)]
pub struct ViewShape {
    pub rel: String,
    pub shape: Vec<Item>,
    pub includes: Vec<String>,
    pub layout: Option<String>,
}

/// An item as plain values.
pub enum ItemV {
    Text(Seq<char>, u32),
    Partial(Seq<char>),
    Content,
    Branch(Seq<Seq<ItemV>>),
    Loop(Seq<ItemV>),
}

/// A view as plain values.
pub struct ViewShapeV {
    pub rel: Seq<char>,
    pub shape: Seq<ItemV>,
    pub includes: Seq<Seq<char>>,
    pub layout: Option<Seq<char>>,
}

pub open spec fn item_v(i: Item) -> ItemV
    decreases i,
{
    match i {
        Item::Text(t, line) => ItemV::Text(t@, line),
        Item::Partial(n) => ItemV::Partial(n@),
        Item::Content => ItemV::Content,
        Item::Branch(bs) => ItemV::Branch(branches_v(bs@)),
        Item::Loop(body) => ItemV::Loop(items_v(body@)),
    }
}

pub open spec fn items_v(s: Seq<Item>) -> Seq<ItemV>
    decreases s,
{
    if s.len() == 0 {
        Seq::empty()
    } else {
        items_v(s.drop_last()).push(item_v(s.last()))
    }
}

pub open spec fn branches_v(bs: Seq<Vec<Item>>) -> Seq<Seq<ItemV>>
    decreases bs,
{
    if bs.len() == 0 {
        Seq::empty()
    } else {
        branches_v(bs.drop_last()).push(items_v(bs.last()@))
    }
}

pub open spec fn view_shape_v(v: ViewShape) -> ViewShapeV {
    ViewShapeV {
        rel: v.rel@,
        shape: items_v(v.shape@),
        includes: Seq::new(v.includes@.len(), |k: int| v.includes@[k]@),
        layout: match v.layout {
            Some(l) => Some(l@),
            None => None,
        },
    }
}

pub open spec fn views_v(vs: Seq<(String, ViewShape)>) -> Seq<(Seq<char>, ViewShapeV)> {
    Seq::new(vs.len(), |k: int| (vs[k].0@, view_shape_v(vs[k].1)))
}

/// The view named `name`: the first entry with that name.
pub open spec fn view_of(views: Seq<(Seq<char>, ViewShapeV)>, name: Seq<char>) -> Option<ViewShapeV>
    decreases views.len(),
{
    if views.len() == 0 {
        None
    } else if views[0].0 == name {
        Some(views[0].1)
    } else {
        view_of(views.drop_first(), name)
    }
}

/// How many of the headings are `<h1>`.
pub open spec fn h1s(hs: Seq<(u32, u32)>) -> int
    decreases hs.len(),
{
    if hs.len() == 0 {
        0
    } else {
        h1s(hs.drop_last()) + if hs.last().0 == 1 { 1int } else { 0int }
    }
}

/// The headings of literal text starting on `line`.
pub open spec fn text_headings(t: Seq<char>, line: u32) -> Seq<(u32, u32)> {
    headings_from(lowered(t), 0, line as int)
}

/// Counts saturate at two: "more than one" is all the rule asks.
pub open spec fn sat(x: int) -> int {
    if x < 2 { x } else { 2 }
}

pub open spec fn min_of(a: int, b: int) -> int {
    if a <= b { a } else { b }
}

pub open spec fn max_of(a: int, b: int) -> int {
    if a >= b { a } else { b }
}

/// A partial the walk may enter: a view it has not entered on the way here. (The walk
/// never enters a view twice, so `seen` stays shorter than `views`; the bound makes the
/// recursion's measure plain.)
pub open spec fn enters(views: Seq<(Seq<char>, ViewShapeV)>, seen: Seq<Seq<char>>, name: Seq<char>) -> bool {
    view_of(views, name) is Some && !seen.contains(name) && seen.len() < views.len()
}

/// `(min, max)` of `<h1>` over every state of a shape, both saturating at two.
pub open spec fn bounds_items(items: Seq<ItemV>, views: Seq<(Seq<char>, ViewShapeV)>, seen: Seq<Seq<char>>) -> (int, int)
    decreases views.len() - seen.len(), items, 0int,
{
    if items.len() == 0 {
        (0, 0)
    } else {
        let a = bounds_items(items.drop_last(), views, seen);
        let b = bounds_item(items.last(), views, seen);
        (sat(a.0 + b.0), sat(a.1 + b.1))
    }
}

/// `(min, max)` of `<h1>` over every state of one item.
pub open spec fn bounds_item(item: ItemV, views: Seq<(Seq<char>, ViewShapeV)>, seen: Seq<Seq<char>>) -> (int, int)
    decreases views.len() - seen.len(), item, 0int,
{
    match item {
        ItemV::Text(t, line) => (h1s(text_headings(t, line)) as u32 as int, h1s(text_headings(t, line)) as u32 as int),
        ItemV::Partial(name) => if enters(views, seen, name) {
            bounds_items(view_of(views, name).unwrap().shape, views, seen.push(name))
        } else {
            (0, 0)
        },
        ItemV::Content => (0, 0),
        ItemV::Branch(bs) => bounds_branches(bs, views, seen),
        ItemV::Loop(body) => (0, if bounds_items(body, views, seen).1 > 0 { 2 } else { 0 }),
    }
}

/// The least minimum and the greatest maximum over the branches; `(0, 0)` for none.
pub open spec fn bounds_branches(bs: Seq<Seq<ItemV>>, views: Seq<(Seq<char>, ViewShapeV)>, seen: Seq<Seq<char>>) -> (int, int)
    decreases views.len() - seen.len(), bs, 0int,
{
    if bs.len() == 0 {
        (0, 0)
    } else if bs.len() == 1 {
        bounds_items(bs[0], views, seen)
    } else {
        let a = bounds_branches(bs.drop_last(), views, seen);
        let b = bounds_items(bs.last(), views, seen);
        (min_of(a.0, b.0), max_of(a.1, b.1))
    }
}

/// `b`'s levels added to `a`'s, each once.
pub open spec fn merge(a: Seq<Option<u32>>, b: Seq<Option<u32>>) -> Seq<Option<u32>>
    decreases b.len(),
{
    if b.len() == 0 {
        a
    } else {
        let m = merge(a, b.drop_last());
        if m.contains(b.last()) { m } else { m.push(b.last()) }
    }
}

/// The skips a heading of `level` at `at` makes after each level the state allows:
/// `(previous, level, line)`, with `0` for "no heading before".
pub open spec fn found_at(state: Seq<Option<u32>>, level: u32, at: u32) -> Seq<(u32, u32, u32)>
    decreases state.len(),
{
    if state.len() == 0 {
        Seq::empty()
    } else {
        found_at(state.drop_last(), level, at) + match state.last() {
            Some(p) => if level > p + 1 { seq![(p, level, at)] } else { Seq::empty() },
            None => if level > 1 { seq![(0u32, level, at)] } else { Seq::empty() },
        }
    }
}

/// The headings from `k` on after `state`: the state after them, and their skips.
pub open spec fn text_skips(hs: Seq<(u32, u32)>, k: int, state: Seq<Option<u32>>) -> (Seq<Option<u32>>, Seq<(u32, u32, u32)>)
    decreases hs.len() - k,
{
    if k < 0 || k >= hs.len() {
        (state, Seq::empty())
    } else {
        let r = text_skips(hs, k + 1, seq![Some(hs[k].0)]);
        (r.0, found_at(state, hs[k].0, hs[k].1) + r.1)
    }
}

/// The levels the last heading may have after a shape, and the skips in it.
pub open spec fn skips_items(
    items: Seq<ItemV>,
    state: Seq<Option<u32>>,
    views: Seq<(Seq<char>, ViewShapeV)>,
    seen: Seq<Seq<char>>,
) -> (Seq<Option<u32>>, Seq<(u32, u32, u32)>)
    decreases views.len() - seen.len(), items, 0int,
{
    if items.len() == 0 {
        (state, Seq::empty())
    } else {
        let a = skips_items(items.drop_last(), state, views, seen);
        let b = skips_item(items.last(), a.0, views, seen);
        (b.0, a.1 + b.1)
    }
}

/// The levels after one item, and its skips. A loop runs once for its findings and
/// twice for the levels it may leave.
pub open spec fn skips_item(
    item: ItemV,
    state: Seq<Option<u32>>,
    views: Seq<(Seq<char>, ViewShapeV)>,
    seen: Seq<Seq<char>>,
) -> (Seq<Option<u32>>, Seq<(u32, u32, u32)>)
    decreases views.len() - seen.len(), item, 0int,
{
    match item {
        ItemV::Text(t, line) => text_skips(text_headings(t, line), 0, state),
        ItemV::Partial(name) => if enters(views, seen, name) {
            skips_items(view_of(views, name).unwrap().shape, state, views, seen.push(name))
        } else {
            (state, Seq::empty())
        },
        ItemV::Content => (state, Seq::empty()),
        ItemV::Branch(bs) => skips_branches(bs, state, views, seen),
        ItemV::Loop(body) => {
            let once = skips_items(body, state, views, seen);
            let merged = merge(state, once.0);
            let twice = skips_items(body, merged, views, seen);
            (merge(merged, twice.0), once.1)
        },
    }
}

/// The levels any branch may leave, and the skips of every branch.
pub open spec fn skips_branches(
    bs: Seq<Seq<ItemV>>,
    state: Seq<Option<u32>>,
    views: Seq<(Seq<char>, ViewShapeV)>,
    seen: Seq<Seq<char>>,
) -> (Seq<Option<u32>>, Seq<(u32, u32, u32)>)
    decreases views.len() - seen.len(), bs, 0int,
{
    if bs.len() == 0 {
        (Seq::empty(), Seq::empty())
    } else {
        let a = skips_branches(bs.drop_last(), state, views, seen);
        let b = skips_items(bs.last(), state, views, seen);
        (merge(a.0, b.0), a.1 + b.1)
    }
}

/// The layout's shape with the view's in place of `content`.
pub open spec fn place(doc: Seq<ItemV>, content: Seq<ItemV>) -> Seq<ItemV>
    decreases doc, 0int,
{
    if doc.len() == 0 {
        Seq::empty()
    } else {
        place(doc.drop_last(), content) + match doc.last() {
            ItemV::Content => content,
            ItemV::Branch(bs) => seq![ItemV::Branch(place_branches(bs, content))],
            ItemV::Loop(body) => seq![ItemV::Loop(place(body, content))],
            other => seq![other],
        }
    }
}

pub open spec fn place_branches(bs: Seq<Seq<ItemV>>, content: Seq<ItemV>) -> Seq<Seq<ItemV>>
    decreases bs, 0int,
{
    if bs.len() == 0 {
        Seq::empty()
    } else {
        place_branches(bs.drop_last(), content).push(place(bs.last(), content))
    }
}

/// Lexicographic order on `(previous, level, line)`.
pub open spec fn triple_lt(a: (u32, u32, u32), b: (u32, u32, u32)) -> bool {
    a.0 < b.0 || (a.0 == b.0 && (a.1 < b.1 || (a.1 == b.1 && a.2 < b.2)))
}

/// The first index from `k` on whose entry is not before `x`.
pub open spec fn first_not_before(r: Seq<(u32, u32, u32)>, x: (u32, u32, u32), k: int) -> int
    decreases r.len() - k,
{
    if k < 0 || k >= r.len() {
        r.len() as int
    } else if !triple_lt(r[k], x) {
        k
    } else {
        first_not_before(r, x, k + 1)
    }
}

/// `x` placed in order in `r`, unless it is there.
pub open spec fn insert_sorted(r: Seq<(u32, u32, u32)>, x: (u32, u32, u32)) -> Seq<(u32, u32, u32)> {
    let i = first_not_before(r, x, 0);
    if i < r.len() && r[i] == x { r } else { r.insert(i, x) }
}

/// The skips in order, each once.
pub open spec fn sorted_unique(s: Seq<(u32, u32, u32)>) -> Seq<(u32, u32, u32)>
    decreases s.len(),
{
    if s.len() == 0 {
        Seq::empty()
    } else {
        insert_sorted(sorted_unique(s.drop_last()), s.last())
    }
}

/// Every literal text's lines fit the line numbers: `line` plus its newlines.
pub open spec fn texts_ok(items: Seq<ItemV>) -> bool
    decreases items, 0int,
{
    items.len() == 0 || (texts_ok(items.drop_last()) && text_ok(items.last()))
}

pub open spec fn text_ok(item: ItemV) -> bool
    decreases item, 0int,
{
    match item {
        ItemV::Text(t, line) => line + newlines(t) <= u32::MAX,
        ItemV::Branch(bs) => branches_ok(bs),
        ItemV::Loop(body) => texts_ok(body),
        _ => true,
    }
}

pub open spec fn branches_ok(bs: Seq<Seq<ItemV>>) -> bool
    decreases bs, 0int,
{
    bs.len() == 0 || (branches_ok(bs.drop_last()) && texts_ok(bs.last()))
}

/// Every view's shape is `texts_ok`.
pub open spec fn views_ok(views: Seq<(Seq<char>, ViewShapeV)>) -> bool {
    forall|k: int| 0 <= k < views.len() ==> texts_ok(#[trigger] views[k].1.shape)
}

pub proof fn lemma_texts_ok_index(items: Seq<ItemV>, k: int)
    requires
        texts_ok(items),
        0 <= k < items.len(),
    ensures
        text_ok(items[k]),
    decreases items.len(),
{
    if k < items.len() - 1 {
        lemma_texts_ok_index(items.drop_last(), k);
    }
}

pub proof fn lemma_branches_ok_index(bs: Seq<Seq<ItemV>>, k: int)
    requires
        branches_ok(bs),
        0 <= k < bs.len(),
    ensures
        texts_ok(bs[k]),
    decreases bs.len(),
{
    if k < bs.len() - 1 {
        lemma_branches_ok_index(bs.drop_last(), k);
    }
}

proof fn lemma_texts_ok_concat(a: Seq<ItemV>, b: Seq<ItemV>)
    requires
        texts_ok(a),
        texts_ok(b),
    ensures
        texts_ok(a + b),
    decreases b.len(),
{
    if b.len() > 0 {
        lemma_texts_ok_concat(a, b.drop_last());
        assert((a + b).drop_last() =~= a + b.drop_last());
    } else {
        assert(a + b =~= a);
    }
}

/// A layout and a view whose texts fit give a page whose texts fit.
pub proof fn lemma_place_ok(doc: Seq<ItemV>, content: Seq<ItemV>)
    requires
        texts_ok(doc),
        texts_ok(content),
    ensures
        texts_ok(place(doc, content)),
    decreases doc, 0int,
{
    if doc.len() > 0 {
        lemma_place_ok(doc.drop_last(), content);
        assert(text_ok(doc.last()));
        let tail = match doc.last() {
            ItemV::Content => content,
            ItemV::Branch(bs) => {
                lemma_place_branches_ok(bs, content);
                seq![ItemV::Branch(place_branches(bs, content))]
            },
            ItemV::Loop(body) => {
                lemma_place_ok(body, content);
                seq![ItemV::Loop(place(body, content))]
            },
            other => seq![other],
        };
        if !(doc.last() is Content) {
            assert(tail.len() == 1);
            assert(tail.drop_last() =~= Seq::<ItemV>::empty());
            assert(texts_ok(tail.drop_last()));
            assert(text_ok(tail.last()));
            assert(texts_ok(tail));
        }
        lemma_texts_ok_concat(place(doc.drop_last(), content), tail);
    }
}

proof fn lemma_place_branches_ok(bs: Seq<Seq<ItemV>>, content: Seq<ItemV>)
    requires
        branches_ok(bs),
        texts_ok(content),
    ensures
        branches_ok(place_branches(bs, content)),
    decreases bs, 0int,
{
    if bs.len() > 0 {
        lemma_place_branches_ok(bs.drop_last(), content);
        lemma_place_ok(bs.last(), content);
        assert(place_branches(bs, content).drop_last() =~= place_branches(bs.drop_last(), content));
    }
}

pub proof fn lemma_items_v(s: Seq<Item>)
    ensures
        items_v(s).len() == s.len(),
        forall|k: int| 0 <= k < s.len() ==> #[trigger] items_v(s)[k] == item_v(s[k]),
    decreases s.len(),
{
    if s.len() > 0 {
        lemma_items_v(s.drop_last());
    }
}

pub proof fn lemma_branches_v(bs: Seq<Vec<Item>>)
    ensures
        branches_v(bs).len() == bs.len(),
        forall|k: int| 0 <= k < bs.len() ==> #[trigger] branches_v(bs)[k] == items_v(bs[k]@),
    decreases bs.len(),
{
    if bs.len() > 0 {
        lemma_branches_v(bs.drop_last());
    }
}

proof fn lemma_items_v_concat(a: Seq<Item>, b: Seq<Item>)
    ensures
        items_v(a + b) == items_v(a) + items_v(b),
    decreases b.len(),
{
    if b.len() == 0 {
        assert(a + b =~= a);
        assert(items_v(a) + items_v(b) =~= items_v(a));
    } else {
        lemma_items_v_concat(a, b.drop_last());
        assert((a + b).drop_last() =~= a + b.drop_last());
        assert(items_v(a) + items_v(b) =~= (items_v(a) + items_v(b.drop_last())).push(item_v(b.last())));
    }
}

/// The position of the view named `name`, the first with that name.
fn find_view(views: &Vec<(String, ViewShape)>, name: &str) -> (r: Option<usize>)
    ensures
        match r {
            Some(k) => k < views@.len() && view_of(views_v(views@), name@) == Some(view_shape_v(views@[k as int].1)),
            None => view_of(views_v(views@), name@) is None,
        },
{
    let ghost vv = views_v(views@);
    let nc = chars_of(name);
    let mut k: usize = 0;
    assert(vv.subrange(0, vv.len() as int) =~= vv);
    while k < views.len()
        invariant
            k <= views@.len(),
            vv == views_v(views@),
            nc@ == name@,
            view_of(vv, name@) == view_of(vv.subrange(k as int, vv.len() as int), name@),
        decreases views@.len() - k,
    {
        let kc = chars_of(views[k].0.as_str());
        assert(vv.subrange(k as int, vv.len() as int)[0] == vv[k as int]);
        if crate::text::same_chars(kc.as_slice(), nc.as_slice()) {
            return Some(k);
        }
        assert(vv.subrange(k as int, vv.len() as int).drop_first() =~= vv.subrange(k + 1, vv.len() as int));
        k = k + 1;
    }
    None
}

/// A copy of an item.
fn clone_item(i: &Item) -> (r: Item)
    ensures
        item_v(r) == item_v(*i),
    decreases i,
{
    match i {
        Item::Text(t, line) => Item::Text(t.clone(), *line),
        Item::Partial(n) => Item::Partial(n.clone()),
        Item::Content => Item::Content,
        Item::Branch(bs) => Item::Branch(clone_branches(bs)),
        Item::Loop(body) => Item::Loop(clone_items(body)),
    }
}

/// A copy of a list of items.
fn clone_items(v: &Vec<Item>) -> (r: Vec<Item>)
    ensures
        items_v(r@) == items_v(v@),
    decreases v,
{
    let mut r: Vec<Item> = Vec::new();
    let mut k: usize = 0;
    while k < v.len()
        invariant
            k <= v@.len(),
            items_v(r@) == items_v(v@.subrange(0, k as int)),
        decreases v@.len() - k,
    {
        assert(v@.subrange(0, k + 1).drop_last() =~= v@.subrange(0, k as int));
        let c = clone_item(&v[k]);
        let ghost before = r@;
        r.push(c);
        assert(r@.drop_last() =~= before);
        k = k + 1;
    }
    assert(v@.subrange(0, v@.len() as int) =~= v@);
    r
}

/// A copy of a list of branches.
fn clone_branches(bs: &Vec<Vec<Item>>) -> (r: Vec<Vec<Item>>)
    ensures
        branches_v(r@) == branches_v(bs@),
    decreases bs,
{
    let mut r: Vec<Vec<Item>> = Vec::new();
    let mut k: usize = 0;
    while k < bs.len()
        invariant
            k <= bs@.len(),
            branches_v(r@) == branches_v(bs@.subrange(0, k as int)),
        decreases bs@.len() - k,
    {
        assert(bs@.subrange(0, k + 1).drop_last() =~= bs@.subrange(0, k as int));
        let c = clone_items(&bs[k]);
        let ghost before = r@;
        r.push(c);
        assert(r@.drop_last() =~= before);
        k = k + 1;
    }
    assert(bs@.subrange(0, bs@.len() as int) =~= bs@);
    r
}

/// The layout's shape `doc` with `content` in place of `content`.
pub fn place_content(doc: &Vec<Item>, content: &Vec<Item>) -> (r: Vec<Item>)
    ensures
        items_v(r@) == place(items_v(doc@), items_v(content@)),
    decreases doc,
{
    let ghost cv = items_v(content@);
    let ghost dv = items_v(doc@);
    proof {
        lemma_items_v(doc@);
    }
    let mut r: Vec<Item> = Vec::new();
    let mut k: usize = 0;
    while k < doc.len()
        invariant
            k <= doc@.len(),
            dv == items_v(doc@),
            dv.len() == doc@.len(),
            forall|j: int| 0 <= j < doc@.len() ==> #[trigger] dv[j] == item_v(doc@[j]),
            cv == items_v(content@),
            items_v(r@) == place(dv.subrange(0, k as int), cv),
        decreases doc@.len() - k,
    {
        assert(dv.subrange(0, k + 1).drop_last() =~= dv.subrange(0, k as int));
        assert(dv.subrange(0, k + 1).last() == item_v(doc@[k as int]));
        let ghost before = r@;
        match &doc[k] {
            Item::Content => {
                let mut more = clone_items(content);
                let ghost m = more@;
                r.append(&mut more);
                proof {
                    lemma_items_v_concat(before, m);
                    assert(items_v(r@) =~= place(dv.subrange(0, k + 1), cv));
                }
            },
            Item::Branch(bs) => {
                let placed = place_branches_exec(bs, content);
                r.push(Item::Branch(placed));
                assert(r@.drop_last() =~= before);
                assert(dv[k as int] == ItemV::Branch(branches_v(bs@)));
                assert(item_v(r@.last()) == ItemV::Branch(place_branches(branches_v(bs@), cv)));
                assert(items_v(r@) == items_v(before).push(item_v(r@.last())));
                assert(items_v(r@) =~= place(dv.subrange(0, k + 1), cv));
            },
            Item::Loop(body) => {
                let placed = place_content(body, content);
                r.push(Item::Loop(placed));
                assert(r@.drop_last() =~= before);
                assert(dv[k as int] == ItemV::Loop(items_v(body@)));
                assert(item_v(r@.last()) == ItemV::Loop(place(items_v(body@), cv)));
                assert(items_v(r@) == items_v(before).push(item_v(r@.last())));
                assert(items_v(r@) =~= place(dv.subrange(0, k + 1), cv));
            },
            other => {
                let c = clone_item(other);
                r.push(c);
                assert(r@.drop_last() =~= before);
                assert(items_v(r@) =~= place(dv.subrange(0, k + 1), cv));
            },
        }
        k = k + 1;
    }
    assert(dv.subrange(0, doc@.len() as int) =~= dv);
    r
}

/// Each branch with `content` in place.
fn place_branches_exec(bs: &Vec<Vec<Item>>, content: &Vec<Item>) -> (r: Vec<Vec<Item>>)
    ensures
        branches_v(r@) == place_branches(branches_v(bs@), items_v(content@)),
    decreases bs,
{
    let ghost bv = branches_v(bs@);
    proof {
        lemma_branches_v(bs@);
    }
    let mut r: Vec<Vec<Item>> = Vec::new();
    let mut k: usize = 0;
    while k < bs.len()
        invariant
            k <= bs@.len(),
            bv == branches_v(bs@),
            bv.len() == bs@.len(),
            forall|j: int| 0 <= j < bs@.len() ==> #[trigger] bv[j] == items_v(bs@[j]@),
            branches_v(r@) == place_branches(bv.subrange(0, k as int), items_v(content@)),
        decreases bs@.len() - k,
    {
        assert(bv.subrange(0, k + 1).drop_last() =~= bv.subrange(0, k as int));
        let placed = place_content(&bs[k], content);
        let ghost before = r@;
        r.push(placed);
        assert(r@.drop_last() =~= before);
        k = k + 1;
    }
    assert(bv.subrange(0, bs@.len() as int) =~= bv);
    r
}

/// `seen` with `name` after it.
fn push_name(seen: &Vec<String>, name: &String) -> (r: Vec<String>)
    ensures
        strings_v(r@) == strings_v(seen@).push(name@),
{
    let mut r: Vec<String> = Vec::new();
    let mut k: usize = 0;
    while k < seen.len()
        invariant
            k <= seen@.len(),
            r@.len() == k,
            strings_v(r@) == strings_v(seen@).subrange(0, k as int),
        decreases seen@.len() - k,
    {
        let c = seen[k].clone();
        let ghost before = r@;
        r.push(c);
        assert(r@ == before.push(c));
        assert(c@ == seen@[k as int]@);
        assert forall|j: int| 0 <= j < k + 1 implies #[trigger] strings_v(r@)[j] == strings_v(seen@).subrange(0, k + 1)[j] by {
            assert(strings_v(r@)[j] == r@[j]@);
            if j < k {
                assert(r@[j] == before[j]);
                assert(strings_v(before)[j] == before[j]@);
            }
        }
        assert(strings_v(r@) =~= strings_v(seen@).subrange(0, k + 1));
        k = k + 1;
    }
    assert(r@.len() == seen@.len());
    let c = name.clone();
    let ghost before = r@;
    r.push(c);
    assert(r@ == before.push(c));
    assert forall|j: int| 0 <= j < seen@.len() + 1 implies #[trigger] strings_v(r@)[j] == strings_v(seen@).push(name@)[j] by {
        if j < seen@.len() {
            assert(strings_v(r@)[j] == strings_v(before)[j]);
        }
    }
    assert(strings_v(r@) =~= strings_v(seen@).push(name@));
    r
}

/// Whether `seen` names `name`.
fn names(seen: &Vec<String>, name: &String) -> (r: bool)
    ensures
        r == strings_v(seen@).contains(name@),
{
    let nc = chars_of(name.as_str());
    let mut k: usize = 0;
    while k < seen.len()
        invariant
            k <= seen@.len(),
            nc@ == name@,
            forall|j: int| 0 <= j < k ==> strings_v(seen@)[j] != name@,
        decreases seen@.len() - k,
    {
        let sc = chars_of(seen[k].as_str());
        if crate::text::same_chars(sc.as_slice(), nc.as_slice()) {
            assert(strings_v(seen@)[k as int] == name@);
            return true;
        }
        k = k + 1;
    }
    false
}

/// How many of the headings are `<h1>`.
fn h1s_exec(hs: &Vec<(u32, u32)>) -> (r: usize)
    ensures
        r == h1s(hs@),
{
    let mut n: usize = 0;
    let mut k: usize = 0;
    while k < hs.len()
        invariant
            k <= hs@.len(),
            n == h1s(hs@.subrange(0, k as int)),
            n <= k,
        decreases hs@.len() - k,
    {
        assert(hs@.subrange(0, k + 1).drop_last() =~= hs@.subrange(0, k as int));
        if hs[k].0 == 1 {
            n = n + 1;
        }
        k = k + 1;
    }
    assert(hs@.subrange(0, hs@.len() as int) =~= hs@);
    n
}

/// A count added to one of at most two, saturating at two.
fn sat_add(a: u32, b: u32) -> (r: u32)
    requires
        a <= 2,
    ensures
        r == sat(a + b),
{
    if b >= 2 || a + b >= 2 {
        2
    } else {
        a + b
    }
}

/// `(min, max)` of `<h1>` over every state of a shape, both saturating at two; `seen`
/// holds the views entered on the way here.
pub fn h1_bounds(items: &Vec<Item>, views: &Vec<(String, ViewShape)>, seen: &Vec<String>) -> (r: (u32, u32))
    requires
        texts_ok(items_v(items@)),
        views_ok(views_v(views@)),
    ensures
        r.0 == bounds_items(items_v(items@), views_v(views@), strings_v(seen@)).0,
        r.1 == bounds_items(items_v(items@), views_v(views@), strings_v(seen@)).1,
        r.0 <= 2,
        r.1 <= 2,
    decreases views@.len() - seen@.len(), items,
{
    let ghost iv = items_v(items@);
    let ghost vv = views_v(views@);
    let ghost sv = strings_v(seen@);
    proof {
        lemma_items_v(items@);
    }
    let mut lo: u32 = 0;
    let mut hi: u32 = 0;
    let mut k: usize = 0;
    while k < items.len()
        invariant
            k <= items@.len(),
            iv == items_v(items@),
            iv.len() == items@.len(),
            forall|j: int| 0 <= j < items@.len() ==> #[trigger] iv[j] == item_v(items@[j]),
            texts_ok(iv),
            views_ok(vv),
            vv == views_v(views@),
            sv == strings_v(seen@),
            lo == bounds_items(iv.subrange(0, k as int), vv, sv).0,
            hi == bounds_items(iv.subrange(0, k as int), vv, sv).1,
            lo <= 2,
            hi <= 2,
        decreases items@.len() - k,
    {
        assert(iv.subrange(0, k + 1).drop_last() =~= iv.subrange(0, k as int));
        proof {
            lemma_texts_ok_index(iv, k as int);
        }
        let b = bounds_item_exec(&items[k], views, seen);
        lo = sat_add(lo, b.0);
        hi = sat_add(hi, b.1);
        k = k + 1;
    }
    assert(iv.subrange(0, items@.len() as int) =~= iv);
    (lo, hi)
}

/// `(min, max)` of `<h1>` over every state of one item.
fn bounds_item_exec(item: &Item, views: &Vec<(String, ViewShape)>, seen: &Vec<String>) -> (r: (u32, u32))
    requires
        text_ok(item_v(*item)),
        views_ok(views_v(views@)),
    ensures
        r.0 == bounds_item(item_v(*item), views_v(views@), strings_v(seen@)).0,
        r.1 == bounds_item(item_v(*item), views_v(views@), strings_v(seen@)).1,
    decreases views@.len() - seen@.len(), item,
{
    match item {
        Item::Text(t, line) => {
            let hs = crate::lint::template::headings_in(t.as_str(), *line);
            let n = #[verifier::truncate] (h1s_exec(&hs) as u32);
            (n, n)
        },
        Item::Partial(name) => {
            match find_view(views, name.as_str()) {
                Some(v) => {
                    if !names(seen, name) && seen.len() < views.len() {
                        let s2 = push_name(seen, name);
                        proof {
                            assert(strings_v(s2@).len() == s2@.len());
                            assert(s2@.len() == seen@.len() + 1);
                            assert(views_v(views@)[v as int].1.shape == items_v(views@[v as int].1.shape@));
                        }
                        h1_bounds(&views[v].1.shape, views, &s2)
                    } else {
                        (0, 0)
                    }
                },
                None => (0, 0),
            }
        },
        Item::Content => (0, 0),
        Item::Branch(bs) => bounds_branches_exec(bs, views, seen),
        Item::Loop(body) => {
            let b = h1_bounds(body, views, seen);
            (0, if b.1 > 0 { 2 } else { 0 })
        },
    }
}

/// The least minimum and the greatest maximum over the branches.
fn bounds_branches_exec(bs: &Vec<Vec<Item>>, views: &Vec<(String, ViewShape)>, seen: &Vec<String>) -> (r: (u32, u32))
    requires
        branches_ok(branches_v(bs@)),
        views_ok(views_v(views@)),
    ensures
        r.0 == bounds_branches(branches_v(bs@), views_v(views@), strings_v(seen@)).0,
        r.1 == bounds_branches(branches_v(bs@), views_v(views@), strings_v(seen@)).1,
        r.0 <= 2,
        r.1 <= 2,
    decreases views@.len() - seen@.len(), bs,
{
    let ghost bv = branches_v(bs@);
    let ghost vv = views_v(views@);
    let ghost sv = strings_v(seen@);
    proof {
        lemma_branches_v(bs@);
    }
    if bs.len() == 0 {
        return (0, 0);
    }
    proof {
        lemma_branches_ok_index(bv, 0);
    }
    let first = h1_bounds(&bs[0], views, seen);
    let mut lo = first.0;
    let mut hi = first.1;
    assert(bv.subrange(0, 1)[0] == bv[0]);
    let mut k: usize = 1;
    while k < bs.len()
        invariant
            1 <= k <= bs@.len(),
            bv == branches_v(bs@),
            bv.len() == bs@.len(),
            forall|j: int| 0 <= j < bs@.len() ==> #[trigger] bv[j] == items_v(bs@[j]@),
            branches_ok(bv),
            views_ok(vv),
            vv == views_v(views@),
            sv == strings_v(seen@),
            lo == bounds_branches(bv.subrange(0, k as int), vv, sv).0,
            hi == bounds_branches(bv.subrange(0, k as int), vv, sv).1,
            lo <= 2,
            hi <= 2,
        decreases bs@.len() - k,
    {
        assert(bv.subrange(0, k + 1).drop_last() =~= bv.subrange(0, k as int));
        proof {
            lemma_branches_ok_index(bv, k as int);
        }
        let b = h1_bounds(&bs[k], views, seen);
        if b.0 < lo {
            lo = b.0;
        }
        if b.1 > hi {
            hi = b.1;
        }
        k = k + 1;
    }
    assert(bv.subrange(0, bs@.len() as int) =~= bv);
    (lo, hi)
}

fn holds_level(a: &Vec<Option<u32>>, x: Option<u32>) -> (r: bool)
    ensures
        r == a@.contains(x),
{
    let mut k: usize = 0;
    while k < a.len()
        invariant
            k <= a@.len(),
            forall|j: int| 0 <= j < k ==> a@[j] != x,
        decreases a@.len() - k,
    {
        let same = match (a[k], x) {
            (Some(p), Some(q)) => p == q,
            (None, None) => true,
            _ => false,
        };
        if same {
            assert(a@[k as int] == x);
            return true;
        }
        k = k + 1;
    }
    false
}

/// `b`'s levels added to `a`, each once.
fn merge_exec(a: &mut Vec<Option<u32>>, b: &Vec<Option<u32>>)
    ensures
        final(a)@ == merge(old(a)@, b@),
{
    let ghost a0 = a@;
    let mut k: usize = 0;
    while k < b.len()
        invariant
            k <= b@.len(),
            a@ == merge(a0, b@.subrange(0, k as int)),
        decreases b@.len() - k,
    {
        assert(b@.subrange(0, k + 1).drop_last() =~= b@.subrange(0, k as int));
        if !holds_level(a, b[k]) {
            a.push(b[k]);
        }
        k = k + 1;
    }
    assert(b@.subrange(0, b@.len() as int) =~= b@);
}

/// A copy of a state.
fn copy_state(a: &Vec<Option<u32>>) -> (r: Vec<Option<u32>>)
    ensures
        r@ == a@,
{
    let mut r: Vec<Option<u32>> = Vec::new();
    let mut k: usize = 0;
    while k < a.len()
        invariant
            k <= a@.len(),
            r@ == a@.subrange(0, k as int),
        decreases a@.len() - k,
    {
        r.push(a[k]);
        assert(r@ =~= a@.subrange(0, k + 1));
        k = k + 1;
    }
    assert(a@.subrange(0, a@.len() as int) =~= a@);
    r
}

/// The skips a heading of `level` at `at` makes after each level of the state.
fn found_at_exec(state: &Vec<Option<u32>>, level: u32, at: u32, out: &mut Vec<(u32, u32, u32)>)
    ensures
        final(out)@ == old(out)@ + found_at(state@, level, at),
{
    let ghost o0 = out@;
    let mut k: usize = 0;
    while k < state.len()
        invariant
            k <= state@.len(),
            out@ == o0 + found_at(state@.subrange(0, k as int), level, at),
        decreases state@.len() - k,
    {
        assert(state@.subrange(0, k + 1).drop_last() =~= state@.subrange(0, k as int));
        let ghost before = out@;
        match state[k] {
            Some(p) => {
                if (level as u64) > (p as u64) + 1 {
                    out.push((p, level, at));
                }
            },
            None => {
                if level > 1 {
                    out.push((0, level, at));
                }
            },
        }
        assert(out@ =~= o0 + found_at(state@.subrange(0, k + 1), level, at));
        k = k + 1;
    }
    assert(state@.subrange(0, state@.len() as int) =~= state@);
}

/// The headings of literal text after `state`: the state after them, their skips added
/// to `out`.
fn text_skips_exec(hs: &Vec<(u32, u32)>, state: Vec<Option<u32>>, out: &mut Vec<(u32, u32, u32)>) -> (r: Vec<Option<u32>>)
    ensures
        r@ == text_skips(hs@, 0, state@).0,
        final(out)@ == old(out)@ + text_skips(hs@, 0, state@).1,
{
    let ghost o0 = out@;
    let ghost s0 = state@;
    let mut st = state;
    let mut k: usize = 0;
    while k < hs.len()
        invariant
            k <= hs@.len(),
            text_skips(hs@, 0, s0).0 == text_skips(hs@, k as int, st@).0,
            text_skips(hs@, 0, s0).1 == out@.subrange(o0.len() as int, out@.len() as int) + text_skips(hs@, k as int, st@).1,
            out@.subrange(0, o0.len() as int) == o0,
            o0.len() <= out@.len(),
        decreases hs@.len() - k,
    {
        let ghost before = out@;
        let (level, at) = hs[k];
        found_at_exec(&st, level, at, out);
        let mut next: Vec<Option<u32>> = Vec::new();
        next.push(Some(level));
        proof {
            assert(next@ =~= seq![Some(level)]);
            assert(out@.subrange(o0.len() as int, out@.len() as int) =~= before.subrange(o0.len() as int, before.len() as int)
                + found_at(st@, level, at));
            assert(out@.subrange(0, o0.len() as int) =~= o0);
        }
        st = next;
        k = k + 1;
    }
    assert(out@ =~= o0 + out@.subrange(o0.len() as int, out@.len() as int));
    st
}

/// The heading-order check as an abstract interpretation: the levels the last heading
/// may have after a shape (`None` for "no heading yet"), its skips added to `out` as
/// `(previous, level, line)`.
pub fn level_skips(
    items: &Vec<Item>,
    state: Vec<Option<u32>>,
    views: &Vec<(String, ViewShape)>,
    seen: &Vec<String>,
    out: &mut Vec<(u32, u32, u32)>,
) -> (r: Vec<Option<u32>>)
    requires
        texts_ok(items_v(items@)),
        views_ok(views_v(views@)),
    ensures
        r@ == skips_items(items_v(items@), state@, views_v(views@), strings_v(seen@)).0,
        final(out)@ == old(out)@ + skips_items(items_v(items@), state@, views_v(views@), strings_v(seen@)).1,
    decreases views@.len() - seen@.len(), items,
{
    let ghost iv = items_v(items@);
    let ghost vv = views_v(views@);
    let ghost sv = strings_v(seen@);
    let ghost o0 = out@;
    let ghost s0 = state@;
    proof {
        lemma_items_v(items@);
    }
    let mut st = state;
    let mut k: usize = 0;
    while k < items.len()
        invariant
            k <= items@.len(),
            iv == items_v(items@),
            iv.len() == items@.len(),
            forall|j: int| 0 <= j < items@.len() ==> #[trigger] iv[j] == item_v(items@[j]),
            texts_ok(iv),
            views_ok(vv),
            vv == views_v(views@),
            sv == strings_v(seen@),
            st@ == skips_items(iv.subrange(0, k as int), s0, vv, sv).0,
            out@ == o0 + skips_items(iv.subrange(0, k as int), s0, vv, sv).1,
        decreases items@.len() - k,
    {
        assert(iv.subrange(0, k + 1).drop_last() =~= iv.subrange(0, k as int));
        proof {
            lemma_texts_ok_index(iv, k as int);
        }
        let ghost before = out@;
        st = skips_item_exec(&items[k], st, views, seen, out);
        assert(out@ =~= o0 + skips_items(iv.subrange(0, k + 1), s0, vv, sv).1);
        k = k + 1;
    }
    assert(iv.subrange(0, items@.len() as int) =~= iv);
    st
}

/// The levels after one item, its skips added to `out`.
fn skips_item_exec(
    item: &Item,
    state: Vec<Option<u32>>,
    views: &Vec<(String, ViewShape)>,
    seen: &Vec<String>,
    out: &mut Vec<(u32, u32, u32)>,
) -> (r: Vec<Option<u32>>)
    requires
        text_ok(item_v(*item)),
        views_ok(views_v(views@)),
    ensures
        r@ == skips_item(item_v(*item), state@, views_v(views@), strings_v(seen@)).0,
        final(out)@ == old(out)@ + skips_item(item_v(*item), state@, views_v(views@), strings_v(seen@)).1,
    decreases views@.len() - seen@.len(), item,
{
    let ghost o0 = out@;
    match item {
        Item::Text(t, line) => {
            let hs = crate::lint::template::headings_in(t.as_str(), *line);
            text_skips_exec(&hs, state, out)
        },
        Item::Partial(name) => {
            match find_view(views, name.as_str()) {
                Some(v) => {
                    if !names(seen, name) && seen.len() < views.len() {
                        let s2 = push_name(seen, name);
                        proof {
                            assert(strings_v(s2@).len() == s2@.len());
                            assert(s2@.len() == seen@.len() + 1);
                            assert(views_v(views@)[v as int].1.shape == items_v(views@[v as int].1.shape@));
                        }
                        level_skips(&views[v].1.shape, state, views, &s2, out)
                    } else {
                        assert(out@ =~= o0 + Seq::<(u32, u32, u32)>::empty());
                        state
                    }
                },
                None => {
                    assert(out@ =~= o0 + Seq::<(u32, u32, u32)>::empty());
                    state
                },
            }
        },
        Item::Content => {
            assert(out@ =~= o0 + Seq::<(u32, u32, u32)>::empty());
            state
        },
        Item::Branch(bs) => skips_branches_exec(bs, state, views, seen, out),
        Item::Loop(body) => {
            let first = copy_state(&state);
            let once = level_skips(body, first, views, seen, out);
            let mut merged = state;
            merge_exec(&mut merged, &once);
            let again = copy_state(&merged);
            let mut scratch: Vec<(u32, u32, u32)> = Vec::new();
            let twice = level_skips(body, again, views, seen, &mut scratch);
            merge_exec(&mut merged, &twice);
            merged
        },
    }
}

/// The levels any branch may leave, the skips of every branch added to `out`.
fn skips_branches_exec(
    bs: &Vec<Vec<Item>>,
    state: Vec<Option<u32>>,
    views: &Vec<(String, ViewShape)>,
    seen: &Vec<String>,
    out: &mut Vec<(u32, u32, u32)>,
) -> (r: Vec<Option<u32>>)
    requires
        branches_ok(branches_v(bs@)),
        views_ok(views_v(views@)),
    ensures
        r@ == skips_branches(branches_v(bs@), state@, views_v(views@), strings_v(seen@)).0,
        final(out)@ == old(out)@ + skips_branches(branches_v(bs@), state@, views_v(views@), strings_v(seen@)).1,
    decreases views@.len() - seen@.len(), bs,
{
    let ghost bv = branches_v(bs@);
    let ghost vv = views_v(views@);
    let ghost sv = strings_v(seen@);
    let ghost o0 = out@;
    proof {
        lemma_branches_v(bs@);
    }
    let mut merged: Vec<Option<u32>> = Vec::new();
    let mut k: usize = 0;
    proof {
        assert(bv.subrange(0, 0) =~= Seq::<Seq<ItemV>>::empty());
        assert(out@ =~= o0 + Seq::<(u32, u32, u32)>::empty());
        assert(merged@ =~= Seq::<Option<u32>>::empty());
    }
    while k < bs.len()
        invariant
            k <= bs@.len(),
            bv == branches_v(bs@),
            bv.len() == bs@.len(),
            forall|j: int| 0 <= j < bs@.len() ==> #[trigger] bv[j] == items_v(bs@[j]@),
            branches_ok(bv),
            views_ok(vv),
            vv == views_v(views@),
            sv == strings_v(seen@),
            merged@ == skips_branches(bv.subrange(0, k as int), state@, vv, sv).0,
            out@ == o0 + skips_branches(bv.subrange(0, k as int), state@, vv, sv).1,
        decreases bs@.len() - k,
    {
        assert(bv.subrange(0, k + 1).drop_last() =~= bv.subrange(0, k as int));
        proof {
            lemma_branches_ok_index(bv, k as int);
        }
        let start = copy_state(&state);
        let s = level_skips(&bs[k], start, views, seen, out);
        merge_exec(&mut merged, &s);
        assert(out@ =~= o0 + skips_branches(bv.subrange(0, k + 1), state@, vv, sv).1);
        k = k + 1;
    }
    assert(bv.subrange(0, bs@.len() as int) =~= bv);
    merged
}

fn triple_lt_exec(a: (u32, u32, u32), b: (u32, u32, u32)) -> (r: bool)
    ensures
        r == triple_lt(a, b),
{
    a.0 < b.0 || (a.0 == b.0 && (a.1 < b.1 || (a.1 == b.1 && a.2 < b.2)))
}

/// The skips in order, each once.
fn sorted_unique_exec(found: &Vec<(u32, u32, u32)>) -> (r: Vec<(u32, u32, u32)>)
    ensures
        r@ == sorted_unique(found@),
{
    let mut r: Vec<(u32, u32, u32)> = Vec::new();
    let mut k: usize = 0;
    while k < found.len()
        invariant
            k <= found@.len(),
            r@ == sorted_unique(found@.subrange(0, k as int)),
        decreases found@.len() - k,
    {
        assert(found@.subrange(0, k + 1).drop_last() =~= found@.subrange(0, k as int));
        let x = found[k];
        let mut i: usize = 0;
        while i < r.len() && triple_lt_exec(r[i], x)
            invariant
                i <= r@.len(),
                first_not_before(r@, x, 0) == first_not_before(r@, x, i as int),
            decreases r@.len() - i,
        {
            i = i + 1;
        }
        let present = i < r.len() && r[i].0 == x.0 && r[i].1 == x.1 && r[i].2 == x.2;
        if !present {
            r.insert(i, x);
        }
        k = k + 1;
    }
    assert(found@.subrange(0, found@.len() as int) =~= found@);
    r
}

/// `ctx` after `old` gained one finding for each of `added`, each for its own file, in
/// order, and nothing else.
pub open spec fn recorded_files(old: Ctx, ctx: Ctx, added: Seq<(Seq<char>, FSpec)>) -> bool {
    &&& ctx.display == old.display
    &&& ctx.folder == old.folder
    &&& ctx.manifest_slug == old.manifest_slug
    &&& ctx.solo == old.solo
    &&& ctx.findings@.len() == old.findings@.len() + added.len()
    &&& forall|i: int| 0 <= i < old.findings@.len() ==> ctx.findings@[i] == old.findings@[i]
    &&& forall|k: int|
        0 <= k < added.len() ==> recorded_as(#[trigger] ctx.findings@[old.findings@.len() + k], added[k].1, old.display@, added[k].0)
}

/// Record one finding of `PV404` for `rel`.
fn record_one(ctx: &mut Ctx, rel: &String, line: u32, message: &[char], fix: &[char], Ghost(added): Ghost<Seq<(Seq<char>, FSpec)>>, Ghost(c0): Ghost<Ctx>)
    requires
        recorded_files(c0, *old(ctx), added),
    ensures
        recorded_files(
            c0,
            *final(ctx),
            added.push((rel@, FSpec { id: RuleId::PV404, line, message: message@, fix: Some(fix@), edit: None })),
        ),
{
    let ghost before = *ctx;
    let f = ctx.push(RuleId::PV404, rel.as_str(), line, crate::text::string_of(message));
    f.fix = Some(crate::text::string_of(fix));
    proof {
        let n0 = c0.findings@.len();
        let g = FSpec { id: RuleId::PV404, line, message: message@, fix: Some(fix@), edit: None };
        let a2 = added.push((rel@, g));
        assert(ctx.findings@[(n0 + added.len()) as int] == ctx.findings@.last());
        assert forall|k: int| 0 <= k < a2.len() implies recorded_as(#[trigger] ctx.findings@[n0 + k], a2[k].1, c0.display@, a2[k].0) by {
            if k < added.len() {
                assert(ctx.findings@[n0 + k] == before.findings@[n0 + k]);
            }
        }
    }
}

/// Some view includes `name` as a partial.
pub open spec fn included(views: Seq<(Seq<char>, ViewShapeV)>, name: Seq<char>) -> bool {
    exists|k: int| 0 <= k < views.len() && #[trigger] views[k].1.includes.contains(name)
}

/// Some view asks for `name` as its layout.
pub open spec fn a_layout(views: Seq<(Seq<char>, ViewShapeV)>, name: Seq<char>) -> bool {
    exists|k: int| 0 <= k < views.len() && #[trigger] views[k].1.layout == Some(name)
}

/// A view judged as a page: not a partial or a layout, and not a `_` view nothing
/// renders. A view neither rendered nor included is reached by a name the linter cannot
/// see, so it is judged too.
pub open spec fn judged(views: Seq<(Seq<char>, ViewShapeV)>, rendered: Seq<Seq<char>>, name: Seq<char>) -> bool {
    !(included(views, name) || a_layout(views, name) || (!rendered.contains(name) && crate::text::starts_with(name, "_"@)))
}

/// A view's page: its shape inside its layout's, when it has one that exists.
pub open spec fn page_shape(views: Seq<(Seq<char>, ViewShapeV)>, v: ViewShapeV) -> Seq<ItemV> {
    match v.layout {
        Some(l) => match view_of(views, l) {
            Some(doc) => place(doc.shape, v.shape),
            None => v.shape,
        },
        None => v.shape,
    }
}

/// The finding for one skip.
pub open spec fn skip_finding(rel: Seq<char>, t: (u32, u32, u32)) -> (Seq<char>, FSpec) {
    (
        rel,
        FSpec {
            id: RuleId::PV404,
            line: t.2,
            message: if t.0 == 0 {
                "the first heading is <h"@ + decimal(t.1 as nat) + ">, not <h1>"@
            } else {
                "<h"@ + decimal(t.0 as nat) + "> is followed by <h"@ + decimal(t.1 as nat) + ">; levels do not skip"@
            },
            fix: Some("<h"@ + decimal((t.0 + 1) as nat) + ">"@),
            edit: None,
        },
    )
}

pub open spec fn no_h1_message() -> Seq<char> {
    "some state of this page renders no <h1> — the empty state included, every branch supplies the page's one heading"@
}

pub open spec fn no_h1_fix() -> Seq<char> {
    "give each branch its <h1>, or hoist one above the branches"@
}

pub open spec fn two_h1_message() -> Seq<char> {
    "some state of this page renders more than one <h1> — a page with its partials carries exactly one"@
}

pub open spec fn two_h1_fix() -> Seq<char> {
    "demote the second heading to <h2>, or move the <h1> into the branch that owns the page"@
}

/// `PV404` over the page of view `k`: one `<h1>` in every state, and no level skipped.
pub open spec fn page_findings(views: Seq<(Seq<char>, ViewShapeV)>, rendered: Seq<Seq<char>>, k: int) -> Seq<(Seq<char>, FSpec)> {
    let name = views[k].0;
    let v = views[k].1;
    if !judged(views, rendered, name) {
        Seq::empty()
    } else {
        let shape = page_shape(views, v);
        let seen = seq![name];
        let b = bounds_items(shape, views, seen);
        let skips = sorted_unique(skips_items(shape, seq![None], views, seen).1);
        (if b.0 == 0 {
            seq![(v.rel, FSpec { id: RuleId::PV404, line: 1, message: no_h1_message(), fix: Some(no_h1_fix()), edit: None })]
        } else {
            Seq::empty()
        }) + (if b.1 > 1 {
            seq![(v.rel, FSpec { id: RuleId::PV404, line: 1, message: two_h1_message(), fix: Some(two_h1_fix()), edit: None })]
        } else {
            Seq::empty()
        }) + Seq::new(skips.len(), |j: int| skip_finding(v.rel, skips[j]))
    }
}

/// The pages of the first `n` views, in order.
pub open spec fn pages_findings(views: Seq<(Seq<char>, ViewShapeV)>, rendered: Seq<Seq<char>>, n: int) -> Seq<(Seq<char>, FSpec)>
    decreases n,
{
    if n <= 0 {
        Seq::empty()
    } else {
        pages_findings(views, rendered, n - 1) + page_findings(views, rendered, n - 1)
    }
}

fn same_name(a: &String, b: &String) -> (r: bool)
    ensures
        r == (a@ == b@),
{
    let x = chars_of(a.as_str());
    let y = chars_of(b.as_str());
    crate::text::same_chars(x.as_slice(), y.as_slice())
}

/// Whether some view includes `name`.
fn is_included(views: &Vec<(String, ViewShape)>, name: &String) -> (r: bool)
    ensures
        r == included(views_v(views@), name@),
{
    let ghost vv = views_v(views@);
    let mut k: usize = 0;
    while k < views.len()
        invariant
            k <= views@.len(),
            vv == views_v(views@),
            forall|i: int| 0 <= i < k ==> !(#[trigger] vv[i].1.includes.contains(name@)),
        decreases views@.len() - k,
    {
        let inc = &views[k].1.includes;
        let ghost iv = vv[k as int].1.includes;
        let mut j: usize = 0;
        while j < inc.len()
            invariant
                j <= inc@.len(),
                k < views@.len(),
                vv == views_v(views@),
                inc == &views@[k as int].1.includes,
                iv == vv[k as int].1.includes,
                iv.len() == inc@.len(),
                forall|m: int| 0 <= m < inc@.len() ==> #[trigger] iv[m] == inc@[m]@,
                forall|m: int| 0 <= m < j ==> iv[m] != name@,
            decreases inc@.len() - j,
        {
            if same_name(&inc[j], name) {
                assert(iv[j as int] == name@);
                assert(vv[k as int].1.includes.contains(name@));
                return true;
            }
            j = j + 1;
        }
        k = k + 1;
    }
    false
}

/// Whether some view asks for `name` as its layout.
fn is_layout(views: &Vec<(String, ViewShape)>, name: &String) -> (r: bool)
    ensures
        r == a_layout(views_v(views@), name@),
{
    let ghost vv = views_v(views@);
    let mut k: usize = 0;
    while k < views.len()
        invariant
            k <= views@.len(),
            vv == views_v(views@),
            forall|i: int| 0 <= i < k ==> #[trigger] vv[i].1.layout != Some(name@),
        decreases views@.len() - k,
    {
        match &views[k].1.layout {
            Some(l) => {
                if same_name(l, name) {
                    assert(vv[k as int].1.layout == Some(name@));
                    return true;
                }
            },
            None => {},
        }
        k = k + 1;
    }
    false
}

/// `PV404` over the pages: which views are pages, what each renders with its layout and
/// partials, exactly one `<h1>` in every state, and no heading level skipped. Views come
/// in name order; `rendered` names the views the app renders by name.
pub fn check_pages(ctx: &mut Ctx, views: &Vec<(String, ViewShape)>, rendered: &[String])
    requires
        views_ok(views_v(views@)),
    ensures
        recorded_files(*old(ctx), *final(ctx), pages_findings(views_v(views@), strings_v(rendered@), views@.len() as int)),
{
    let ghost vv = views_v(views@);
    let ghost rv = strings_v(rendered@);
    let ghost c0 = *ctx;
    let mut k: usize = 0;
    proof {
        assert(recorded_files(c0, *ctx, Seq::<(Seq<char>, FSpec)>::empty()));
    }
    while k < views.len()
        invariant
            k <= views@.len(),
            vv == views_v(views@),
            rv == strings_v(rendered@),
            views_ok(vv),
            recorded_files(c0, *ctx, pages_findings(vv, rv, k as int)),
        decreases views@.len() - k,
    {
        let name = &views[k].0;
        let view = &views[k].1;
        let ghost added = pages_findings(vv, rv, k as int);
        let inc = is_included(views, name);
        let lay = is_layout(views, name);
        let mut ren = false;
        let mut r: usize = 0;
        while r < rendered.len()
            invariant
                r <= rendered@.len(),
                ren == exists|j: int| 0 <= j < r && strings_v(rendered@)[j] == name@,
            decreases rendered@.len() - r,
        {
            assert(strings_v(rendered@)[r as int] == rendered@[r as int]@);
            if same_name(&rendered[r], name) {
                ren = true;
            }
            r = r + 1;
        }
        proof {
            assert(ren == rv.contains(name@));
        }
        let nc = chars_of(name.as_str());
        let under = chars_of("_");
        let private = crate::text::starts_with_exec(nc.as_slice(), under.as_slice());
        if !(inc || lay || (!ren && private)) {
            proof {
                assert(vv[k as int].1.shape == items_v(view.shape@));
                assert(texts_ok(vv[k as int].1.shape));
            }
            let shape = match &view.layout {
                Some(l) => match find_view(views, l.as_str()) {
                    Some(d) => {
                        proof {
                            assert(texts_ok(vv[d as int].1.shape));
                            lemma_place_ok(vv[d as int].1.shape, vv[k as int].1.shape);
                        }
                        place_content(&views[d].1.shape, &view.shape)
                    },
                    None => clone_items(&view.shape),
                },
                None => clone_items(&view.shape),
            };
            let ghost sh = page_shape(vv, vv[k as int].1);
            assert(items_v(shape@) == sh);
            let mut seen: Vec<String> = Vec::new();
            seen.push(name.clone());
            proof {
                assert(strings_v(seen@) =~= seq![name@]);
            }
            let b = h1_bounds(&shape, views, &seen);
            let ghost a0 = added;
            let ghost mut a = added;
            if b.0 == 0 {
                let m = chars_of("some state of this page renders no <h1> — the empty state included, every branch supplies the page's one heading");
                let fx = chars_of("give each branch its <h1>, or hoist one above the branches");
                record_one(ctx, &view.rel, 1, m.as_slice(), fx.as_slice(), Ghost(a), Ghost(c0));
                proof {
                    a = a.push((view.rel@, FSpec { id: RuleId::PV404, line: 1, message: no_h1_message(), fix: Some(no_h1_fix()), edit: None }));
                }
            }
            if b.1 > 1 {
                let m = chars_of("some state of this page renders more than one <h1> — a page with its partials carries exactly one");
                let fx = chars_of("demote the second heading to <h2>, or move the <h1> into the branch that owns the page");
                record_one(ctx, &view.rel, 1, m.as_slice(), fx.as_slice(), Ghost(a), Ghost(c0));
                proof {
                    a = a.push((view.rel@, FSpec { id: RuleId::PV404, line: 1, message: two_h1_message(), fix: Some(two_h1_fix()), edit: None }));
                }
            }
            let ghost a1 = a;
            let mut found: Vec<(u32, u32, u32)> = Vec::new();
            let mut start: Vec<Option<u32>> = Vec::new();
            start.push(None);
            assert(start@ =~= seq![None::<u32>]);
            let _ = level_skips(&shape, start, views, &seen, &mut found);
            assert(found@ =~= skips_items(sh, seq![None], vv, seq![name@]).1);
            let skips = sorted_unique_exec(&found);
            let ghost sk = skips@;
            let mut j: usize = 0;
            while j < skips.len()
                invariant
                    j <= skips@.len(),
                    sk == skips@,
                    recorded_files(c0, *ctx, a1 + Seq::new(j as nat, |i: int| skip_finding(view.rel@, sk[i]))),
                decreases skips@.len() - j,
            {
                let (prev, level, line) = skips[j];
                let mut m: Vec<char>;
                if prev == 0 {
                    m = chars_of("the first heading is <h");
                    let d = crate::text::decimal_exec(level as u64);
                    crate::text::push_all(&mut m, d.as_slice());
                    push_str(&mut m, ">, not <h1>");
                } else {
                    m = chars_of("<h");
                    let d = crate::text::decimal_exec(prev as u64);
                    crate::text::push_all(&mut m, d.as_slice());
                    push_str(&mut m, "> is followed by <h");
                    let d2 = crate::text::decimal_exec(level as u64);
                    crate::text::push_all(&mut m, d2.as_slice());
                    push_str(&mut m, ">; levels do not skip");
                }
                let mut fx = chars_of("<h");
                let d3 = crate::text::decimal_exec(prev as u64 + 1);
                crate::text::push_all(&mut fx, d3.as_slice());
                push_str(&mut fx, ">");
                record_one(ctx, &view.rel, line, m.as_slice(), fx.as_slice(), Ghost(a1 + Seq::new(j as nat, |i: int| skip_finding(view.rel@, sk[i]))), Ghost(c0));
                proof {
                    assert((a1 + Seq::new(j as nat, |i: int| skip_finding(view.rel@, sk[i]))).push(skip_finding(view.rel@, sk[j as int]))
                        =~= a1 + Seq::new((j + 1) as nat, |i: int| skip_finding(view.rel@, sk[i])));
                }
                j = j + 1;
            }
            proof {
                assert(a1 + Seq::new(sk.len(), |i: int| skip_finding(view.rel@, sk[i])) =~= pages_findings(vv, rv, k + 1));
            }
        } else {
            proof {
                assert(pages_findings(vv, rv, k + 1) =~= added);
            }
        }
        k = k + 1;
    }
}

} // verus!
