//! Buildings: their heights, their footprints' nodes, and the names that are shown.
use std::collections::HashMap;
use vstd::arithmetic::div_mod::lemma_fundamental_div_mod;
use vstd::arithmetic::power2::{lemma2_to64_rest, pow2};
use vstd::prelude::*;
use vstd::string::*;
use vstd::utf8::*;
use crate::grid::{joined, on_grid, Grid, Knife, Point};
use crate::label::at_least;
use crate::number::{eq, equal, float_text, is_float, less, lt, magnitude, negative};
use crate::order::{ascending, is_order, order_of, par_sort_numbers, rank_at, rank_lt};
use crate::records::Rec;
use crate::text::{is_trimmed, law_trimmed, replace, replaced, same, tokens, tokens_of, trim, trimmed, Class};

verus! {

broadcast use vstd::std_specs::hash::group_hash_axioms;

/// The value of a key: that of the first tag with it.
pub open spec fn tag_of(tags: Seq<(Seq<char>, Seq<char>)>, k: Seq<char>) -> Option<Seq<char>>
    decreases tags.len(),
{
    if tags.len() == 0 {
        None
    } else if tags[0].0 == k {
        Some(tags[0].1)
    } else {
        tag_of(tags.skip(1), k)
    }
}

/// Finds the value of a key.
pub fn tag(tags: &Vec<(String, String)>, k: &str) -> (r: Option<String>)
    ensures
        r.deep_view() == tag_of(tags.deep_view(), k@),
{
    let ghost t = tags.deep_view();
    let mut i: usize = 0;
    assert(t.skip(0) =~= t);
    while i < tags.len()
        invariant
            i <= tags.len(),
            t == tags.deep_view(),
            tag_of(t, k@) == tag_of(t.skip(i as int), k@),
        decreases tags.len() - i,
    {
        assert(t.skip(i as int)[0] == tags@[i as int].deep_view());
        assert(t.skip(i as int).skip(1) =~= t.skip(i + 1));
        if same(tags[i].0.as_str(), k) {
            return Some(tags[i].1.clone());
        }
        i += 1;
    }
    None
}

/// The number in a text: its first run of digits, points and minus signs, if that is one.
pub open spec fn num_of(t: Option<Seq<char>>) -> Option<Seq<char>> {
    match t {
        Some(t) => {
            let ws = tokens(t, Class::NotNumeric);
            if ws.len() > 0 && is_float(ws[0]) {
                Some(ws[0])
            } else {
                None
            }
        },
        None => None,
    }
}

/// Finds the number in a text.
pub fn num(t: &Option<String>) -> (r: Option<String>)
    ensures
        r.deep_view() == num_of(t.deep_view()),
{
    match t {
        Some(t) => {
            let ws = tokens_of(t.as_str(), Class::NotNumeric);
            assert(ws.deep_view().len() == ws.len());
            if ws.len() > 0 {
                assert(ws.deep_view()[0] == ws@[0]@);
                if float_text(ws[0].as_str()) {
                    return Some(ws[0].clone());
                }
            }
            None
        },
        None => None,
    }
}

/// The texts of the numbers that give a building's height: its height, its number of levels,
/// and the height that it begins at.
pub struct HeightTexts {
    pub height: Option<String>,
    pub levels: Option<String>,
    pub min_height: Option<String>,
}

/// Reads the numbers that give a building's height.
pub fn height_texts(tags: &Vec<(String, String)>) -> (r: HeightTexts)
    ensures
        r.height.deep_view() == num_of(tag_of(tags.deep_view(), "height"@)),
        r.levels.deep_view() == num_of(tag_of(tags.deep_view(), "building:levels"@)),
        r.min_height.deep_view() == num_of(tag_of(tags.deep_view(), "min_height"@)),
{
    HeightTexts {
        height: num(&tag(tags, "height")),
        levels: num(&tag(tags, "building:levels")),
        min_height: num(&tag(tags, "min_height")),
    }
}

/// The bits of the numbers 2 and 8.
pub const TWO: u64 = 0x4000_0000_0000_0000;

pub const EIGHT: u64 = 0x4020_0000_0000_0000;

/// Two to the power of 52: how far a number's significand reaches.
pub const SIGNIFICAND: u64 = 0x10_0000_0000_0000;

/// The exponent of a number, as its bits hold it.
pub open spec fn exponent(b: u64) -> int {
    magnitude(b) / (SIGNIFICAND as int)
}

/// The whole half metres in a height of no less than 0, at most 255. The height is its
/// significand, with the leading one that its bits leave out, times two to a power that its
/// exponent gives.
pub open spec fn half_metres(b: u64) -> int {
    let e = exponent(b);
    let m = SIGNIFICAND + magnitude(b) % (SIGNIFICAND as int);
    if e < 1022 {
        0
    } else if e > 1029 {
        255
    } else {
        m / two_to(1074 - e)
    }
}

/// A power of two, from 45 to 52.
pub open spec fn two_to(k: int) -> int {
    if k == 45 {
        0x2000_0000_0000
    } else if k == 46 {
        0x4000_0000_0000
    } else if k == 47 {
        0x8000_0000_0000
    } else if k == 48 {
        0x1_0000_0000_0000
    } else if k == 49 {
        0x2_0000_0000_0000
    } else if k == 50 {
        0x4_0000_0000_0000
    } else if k == 51 {
        0x8_0000_0000_0000
    } else {
        0x10_0000_0000_0000
    }
}

fn count_half_metres(b: u64) -> (r: u8)
    requires
        !negative(b),
    ensures
        r == half_metres(b),
{
    assert(magnitude(b) == b);
    let e = b / SIGNIFICAND;
    let m = SIGNIFICAND + b % SIGNIFICAND;
    if e < 1022 {
        0
    } else if e > 1029 {
        255
    } else {
        let d: u64 = match e {
            1029 => 0x2000_0000_0000,
            1028 => 0x4000_0000_0000,
            1027 => 0x8000_0000_0000,
            1026 => 0x1_0000_0000_0000,
            1025 => 0x2_0000_0000_0000,
            1024 => 0x4_0000_0000_0000,
            1023 => 0x8_0000_0000_0000,
            _ => 0x10_0000_0000_0000,
        };
        assert(d == two_to(1074 - e));
        assert(m / d <= 255);
        (m / d) as u8
    }
}

/// The height that is drawn: that given or else that of the levels, if it is above 0, and 8
/// metres otherwise; no less than 2 metres.
pub open spec fn height_of(height: Option<u64>, by_levels: Option<u64>) -> u64 {
    let given = match height {
        Some(h) => Some(h),
        None => by_levels,
    };
    let h = match given {
        Some(h) => if less(0, h) {
            h
        } else {
            EIGHT
        },
        None => EIGHT,
    };
    if less(h, TWO) {
        TWO
    } else {
        h
    }
}

/// The height that a building begins at: that given, if it is above 0.
pub open spec fn base_of(min_height: Option<u64>) -> u64 {
    match min_height {
        Some(h) => if less(0, h) {
            h
        } else {
            0
        },
        None => 0,
    }
}

/// The height of a building and the height that it begins at, in half metres. `by_levels` is
/// three metres for each of its levels.
pub fn heights(height: Option<u64>, by_levels: Option<u64>, min_height: Option<u64>) -> (r: (u8, u8))
    ensures
        r.0 == half_metres(height_of(height, by_levels)),
        r.1 == half_metres(base_of(min_height)),
{
    let given = match height {
        Some(h) => Some(h),
        None => by_levels,
    };
    let h = match given {
        Some(h) => {
            if lt(0, h) {
                h
            } else {
                EIGHT
            }
        },
        None => EIGHT,
    };
    let h = if lt(h, TWO) {
        TWO
    } else {
        h
    };
    let mh = match min_height {
        Some(m) => {
            if lt(0, m) {
                m
            } else {
                0
            }
        },
        None => 0,
    };
    (count_half_metres(h), count_half_metres(mh))
}

/// A building is drawn at least two metres high.
pub proof fn law_height_at_least_two_metres(height: Option<u64>, by_levels: Option<u64>)
    ensures
        4 <= half_metres(height_of(height, by_levels)) <= 255,
{
    let h = height_of(height, by_levels);
    let e = exponent(h);
    let m = SIGNIFICAND + magnitude(h) % (SIGNIFICAND as int);
    assert(!less(h, TWO));
    assert(magnitude(h) >= magnitude(TWO));
    assert(e >= 1024);
}

/// What a relation hands down to its members: height, height that it begins at, and name.
pub struct Inherited {
    pub h: u8,
    pub mh: u8,
    pub name: Option<String>,
}

/// The contents of what a relation hands down.
pub struct InheritedView {
    pub h: u8,
    pub mh: u8,
    pub name: Option<Seq<char>>,
}

impl DeepView for Inherited {
    type V = InheritedView;

    open spec fn deep_view(&self) -> InheritedView {
        InheritedView { h: self.h, mh: self.mh, name: self.name.deep_view() }
    }
}

/// What a relation hands down to the ways among its members: to each the same, if it is a
/// building.
pub open spec fn hands_down(
    tags: Seq<(Seq<char>, Seq<char>)>,
    h: u8,
    mh: u8,
    ways: Seq<i64>,
) -> Seq<(i64, InheritedView)> {
    if tag_of(tags, "building"@) is Some {
        ways.map_values(
            |id: i64| (id, InheritedView { h, mh, name: tag_of(tags, "name"@) }),
        )
    } else {
        Seq::empty()
    }
}

/// Lists what a relation hands down to the ways among its members, given its heights.
pub fn hand_down(tags: &Vec<(String, String)>, h: u8, mh: u8, ways: &Vec<i64>) -> (r: Vec<
    (i64, Inherited),
>)
    ensures
        entries(r@) == hands_down(tags.deep_view(), h, mh, ways@),
{
    let mut out: Vec<(i64, Inherited)> = Vec::new();
    let ghost all = hands_down(tags.deep_view(), h, mh, ways@);
    if !is_building(tags) {
        assert(entries(out@) =~= all);
        return out;
    }
    let name = tag(tags, "name");
    let mut i: usize = 0;
    assert(entries(out@) =~= all.take(0));
    while i < ways.len()
        invariant
            i <= ways.len(),
            all.len() == ways.len(),
            name.deep_view() == tag_of(tags.deep_view(), "name"@),
            forall|k: int|
                0 <= k < all.len() ==> #[trigger] all[k] == (
                    ways@[k],
                    InheritedView { h, mh, name: tag_of(tags.deep_view(), "name"@) },
                ),
            entries(out@) == all.take(i as int),
        decreases ways.len() - i,
    {
        let ghost before = entries(out@);
        let e = Inherited { h, mh, name: name.clone() };
        let ghost v = (ways@[i as int], e.deep_view());
        out.push((ways[i], e));
        assert(entries(out@) =~= before.push(v));
        assert(v == all[i as int]);
        i += 1;
        assert(all.take(i as int) =~= all.take(i - 1).push(all[i - 1]));
    }
    assert(all.take(i as int) =~= all);
    out
}

/// What is handed down to each way: of several relations, the last.
pub open spec fn handed_down(es: Seq<(i64, InheritedView)>) -> Map<i64, InheritedView>
    decreases es.len(),
{
    if es.len() == 0 {
        Map::empty()
    } else {
        handed_down(es.drop_last()).insert(es.last().0, es.last().1)
    }
}

/// The contents of a list of ways and what is handed down to them.
pub open spec fn entries(es: Seq<(i64, Inherited)>) -> Seq<(i64, InheritedView)> {
    es.map_values(|e: (i64, Inherited)| (e.0, e.1.deep_view()))
}

/// What relations hand down to ways.
pub struct Relations {
    map: HashMap<i64, Inherited>,
}

impl View for Relations {
    type V = Map<i64, InheritedView>;

    closed spec fn view(&self) -> Map<i64, InheritedView> {
        self.map@.map_values(|e: Inherited| e.deep_view())
    }
}

impl Relations {
    /// Enters what is handed down to ways.
    pub fn new(es: Vec<(i64, Inherited)>) -> (r: Relations)
        ensures
            r@ == handed_down(entries(es@)),
    {
        let ghost all = entries(es@);
        let mut r = Relations { map: HashMap::new() };
        assert(r@ =~= Map::<i64, InheritedView>::empty());
        for e in it: es.into_iter()
            invariant
                it.seq() == es@,
                all == entries(es@),
                r@ == handed_down(all.take(it.index() as int)),
        {
            let ghost i = it.index() as int;
            let ghost before = r@;
            let ghost v = (e.0, e.1.deep_view());
            assert(all[i] == v);
            assert(all.take(i + 1).drop_last() =~= all.take(i));
            r.map.insert(e.0, e.1);
            assert(r@ =~= before.insert(v.0, v.1));
        }
        assert(all.take(all.len() as int) =~= all);
        r
    }

    /// What is handed down to a way.
    pub fn get(&self, id: i64) -> (r: Option<&Inherited>)
        ensures
            match r {
                Some(e) => self@.contains_key(id) && self@[id] == e.deep_view(),
                None => !self@.contains_key(id),
            },
    {
        self.map.get(&id)
    }
}

/// Whether tags make a building.
pub fn is_building(tags: &Vec<(String, String)>) -> (r: bool)
    ensures
        r == (tag_of(tags.deep_view(), "building"@) is Some),
{
    tag(tags, "building").is_some()
}

/// A way that is drawn: its height, the height that it begins at, and its name.
pub struct Way {
    pub h: u8,
    pub mh: u8,
    pub name: Option<String>,
}

impl DeepView for Way {
    type V = InheritedView;

    open spec fn deep_view(&self) -> InheritedView {
        InheritedView { h: self.h, mh: self.mh, name: self.name.deep_view() }
    }
}

/// How a way is drawn: with its own heights where it is itself a building, or else with those
/// handed down to it; with its own name or else the one handed down. Not at all where it is
/// no building and nothing is handed down.
pub open spec fn way_of(
    own: Option<(u8, u8)>,
    name: Option<Seq<char>>,
    inherited: Option<InheritedView>,
) -> Option<InheritedView> {
    let n = match (name, inherited) {
        (Some(t), _) => Some(t),
        (None, Some(i)) => i.name,
        (None, None) => None,
    };
    match (own, inherited) {
        (Some((h, mh)), _) => Some(InheritedView { h, mh, name: n }),
        (None, Some(i)) => Some(InheritedView { h: i.h, mh: i.mh, name: n }),
        (None, None) => None,
    }
}

/// Finds how a way is drawn.
pub fn way(own: Option<(u8, u8)>, name: Option<String>, inherited: Option<&Inherited>) -> (r:
    Option<Way>)
    ensures
        r.deep_view() == way_of(
            own,
            name.deep_view(),
            match inherited {
                Some(i) => Some(i.deep_view()),
                None => None,
            },
        ),
{
    let name = match (name, inherited) {
        (Some(t), _) => Some(t),
        (None, Some(i)) => i.name.clone(),
        (None, None) => None,
    };
    match (own, inherited) {
        (Some((h, mh)), _) => Some(Way { h, mh, name }),
        (None, Some(i)) => Some(Way { h: i.h, mh: i.mh, name }),
        (None, None) => None,
    }
}

/// Whether numbers stand in ascending order, each once.
pub open spec fn strictly_ascending(s: Seq<i64>) -> bool {
    forall|i: int, j: int| 0 <= i < j < s.len() ==> #[trigger] s[i] < #[trigger] s[j]
}

/// Whether a way refers to a node.
pub open spec fn refers(refs: Seq<Vec<i64>>, id: i64) -> bool {
    exists|w: int| 0 <= w < refs.len() && (#[trigger] refs[w])@.contains(id)
}

fn flatten(refs: &Vec<Vec<i64>>) -> (r: Vec<i64>)
    ensures
        forall|id: i64| #[trigger] r@.contains(id) <==> refers(refs@, id),
{
    let mut out: Vec<i64> = Vec::new();
    let mut w: usize = 0;
    while w < refs.len()
        invariant
            w <= refs.len(),
            forall|id: i64| #[trigger] out@.contains(id) <==> refers(refs@.take(w as int), id),
        decreases refs.len() - w,
    {
        let ghost start = out@;
        let v = &refs[w];
        let mut i: usize = 0;
        while i < v.len()
            invariant
                i <= v.len(),
                out@ == start + v@.take(i as int),
            decreases v.len() - i,
        {
            out.push(v[i]);
            i += 1;
            assert(v@.take(i as int) =~= v@.take(i - 1).push(v@[i - 1]));
        }
        assert(v@.take(i as int) =~= v@);
        assert forall|id: i64| #[trigger] out@.contains(id) <==> refers(refs@.take(w + 1), id) by {
            let t = refs@.take(w + 1);
            let p = refs@.take(w as int);
            if out@.contains(id) {
                let k = choose|k: int| 0 <= k < out@.len() && out@[k] == id;
                if k < start.len() {
                    assert(start[k] == id);
                    assert(start.contains(id));
                    let x = choose|x: int| 0 <= x < p.len() && (#[trigger] p[x])@.contains(id);
                    assert(t[x]@.contains(id));
                } else {
                    assert(v@[k - start.len()] == id);
                    assert(t[w as int]@.contains(id));
                }
            }
            if refers(t, id) {
                let x = choose|x: int| 0 <= x < t.len() && (#[trigger] t[x])@.contains(id);
                if x < w {
                    assert(p[x]@.contains(id));
                    assert(start.contains(id));
                    let k = choose|k: int| 0 <= k < start.len() && start[k] == id;
                    assert(out@[k] == id);
                } else {
                    let k = choose|k: int| 0 <= k < v@.len() && v@[k] == id;
                    assert(out@[start.len() + k] == id);
                }
            }
        }
        w += 1;
    }
    assert(refs@.take(w as int) =~= refs@);
    out
}

fn dedup(v: &Vec<i64>) -> (r: Vec<i64>)
    requires
        ascending(v@),
    ensures
        strictly_ascending(r@),
        forall|id: i64| #[trigger] r@.contains(id) <==> v@.contains(id),
{
    let mut out: Vec<i64> = Vec::new();
    let mut i: usize = 0;
    while i < v.len()
        invariant
            i <= v.len(),
            ascending(v@),
            strictly_ascending(out@),
            i == 0 ==> out.len() == 0,
            i > 0 ==> out.len() > 0 && out@.last() == v@[i - 1],
            forall|id: i64| #[trigger] out@.contains(id) <==> v@.take(i as int).contains(id),
        decreases v.len() - i,
    {
        let ghost before = out@;
        let x = v[i];
        let again = out.len() > 0 && out[out.len() - 1] == x;
        if !again {
            assert(i > 0 ==> v@[i - 1] <= v@[i as int]);
            out.push(x);
            assert forall|a: int, b: int| 0 <= a < b < out@.len() implies #[trigger] out@[a]
                < #[trigger] out@[b] by {
                if b == before.len() {
                    assert(out@[a] == before[a]);
                    if a < before.len() - 1 {
                        assert(before[a] < before[before.len() - 1]);
                    }
                }
            }
        }
        assert forall|id: i64| #[trigger] out@.contains(id) <==> v@.take(i + 1).contains(id) by {
            let (p, q) = (v@.take(i as int), v@.take(i + 1));
            if out@.contains(id) {
                let k = choose|k: int| 0 <= k < out@.len() && out@[k] == id;
                if k < before.len() {
                    assert(before[k] == id);
                    assert(before.contains(id));
                    let m = choose|m: int| 0 <= m < p.len() && p[m] == id;
                    assert(q[m] == id);
                } else {
                    assert(q[i as int] == id);
                }
            }
            if q.contains(id) {
                let m = choose|m: int| 0 <= m < q.len() && q[m] == id;
                if m < i {
                    assert(p[m] == id);
                    assert(before.contains(id));
                    let k = choose|k: int| 0 <= k < before.len() && before[k] == id;
                    assert(out@[k] == id);
                } else {
                    assert(out@[out@.len() - 1] == id);
                }
            }
        }
        i += 1;
    }
    assert(v@.take(i as int) =~= v@);
    out
}

/// Lists the nodes that ways refer to, in ascending order, each once.
pub fn node_ids(refs: &Vec<Vec<i64>>) -> (r: Vec<i64>)
    ensures
        strictly_ascending(r@),
        forall|id: i64| #[trigger] r@.contains(id) <==> refers(refs@, id),
{
    let mut ids = flatten(refs);
    let ghost before = ids@;
    par_sort_numbers(&mut ids);
    let r = dedup(&ids);
    proof {
        before.to_multiset_ensures();
        ids@.to_multiset_ensures();
        assert forall|id: i64| #[trigger] r@.contains(id) <==> refers(refs@, id) by {
            assert(ids@.contains(id) <==> ids@.to_multiset().count(id) > 0);
            assert(before.contains(id) <==> before.to_multiset().count(id) > 0);
        }
    }
    r
}

/// Finds the place of a node among those listed.
pub fn find_id(ids: &Vec<i64>, id: i64) -> (r: Option<usize>)
    requires
        strictly_ascending(ids@),
    ensures
        match r {
            Some(i) => i < ids.len() && ids@[i as int] == id,
            None => !ids@.contains(id),
        },
{
    let mut lo: usize = 0;
    let mut hi = ids.len();
    while lo < hi
        invariant
            lo <= hi <= ids.len(),
            strictly_ascending(ids@),
            forall|k: int| 0 <= k < lo ==> #[trigger] ids@[k] < id,
            forall|k: int| hi <= k < ids.len() ==> #[trigger] ids@[k] > id,
        decreases hi - lo,
    {
        let mid = lo + (hi - lo) / 2;
        let x = ids[mid];
        if x == id {
            return Some(mid);
        } else if x < id {
            lo = mid + 1;
        } else {
            hi = mid;
        }
    }
    None
}

/// Where a node is, if it is listed and its place is known.
pub open spec fn node_place(ids: Seq<i64>, places: Seq<Option<Point>>, id: i64) -> Option<Point> {
    if ids.contains(id) {
        places[ids.index_of(id)]
    } else {
        None
    }
}

/// The places of nodes in order, as far as they are known.
pub open spec fn known_places(ids: Seq<i64>, places: Seq<Option<Point>>, refs: Seq<i64>) -> Seq<
    Point,
>
    decreases refs.len(),
{
    if refs.len() == 0 {
        Seq::empty()
    } else {
        let r = known_places(ids, places, refs.drop_last());
        match node_place(ids, places, refs.last()) {
            Some(p) => r.push(p),
            None => r,
        }
    }
}

/// Lists the places of the nodes that a way refers to.
pub fn footprint(ids: &Vec<i64>, places: &Vec<Option<Point>>, refs: &Vec<i64>) -> (r: Vec<Point>)
    requires
        strictly_ascending(ids@),
        places.len() == ids.len(),
    ensures
        r@ == known_places(ids@, places@, refs@),
{
    let mut out: Vec<Point> = Vec::new();
    let mut i: usize = 0;
    while i < refs.len()
        invariant
            i <= refs.len(),
            strictly_ascending(ids@),
            places.len() == ids.len(),
            out@ == known_places(ids@, places@, refs@.take(i as int)),
        decreases refs.len() - i,
    {
        assert(refs@.take(i + 1).drop_last() =~= refs@.take(i as int));
        match find_id(ids, refs[i]) {
            Some(k) => {
                proof {
                    let j = ids@.index_of(refs@[i as int]);
                    assert(ids@.contains(refs@[i as int]));
                    if j < k {
                        assert(ids@[j] < ids@[k as int]);
                    } else if j > k {
                        assert(ids@[k as int] < ids@[j]);
                    }
                }
                match places[k] {
                    Some(p) => {
                        out.push(p);
                    },
                    None => {},
                }
            },
            None => {},
        }
        i += 1;
    }
    assert(refs@.take(i as int) =~= refs@);
    out
}

/// Whether a point lies between two corners, on the edges of the lower one but not of the
/// upper one.
pub open spec fn within(p: Point, lo: Point, hi: Point) -> bool {
    at_least(p.0, lo.0) && less(p.0, hi.0) && at_least(p.1, lo.1) && less(p.1, hi.1)
}

/// Whether a footprint is drawn: it has a wall, and one of its points lies on the map.
pub open spec fn is_drawn(ps: Seq<Point>, lo: Point, hi: Point) -> bool {
    ps.len() >= 2 && exists|i: int| 0 <= i < ps.len() && within(#[trigger] ps[i], lo, hi)
}

/// Whether a footprint is drawn on a map between two corners.
pub fn reaches(ps: &Vec<Point>, lo: Point, hi: Point) -> (r: bool)
    ensures
        r == is_drawn(ps@, lo, hi),
{
    if ps.len() < 2 {
        return false;
    }
    let mut i: usize = 0;
    while i < ps.len()
        invariant
            i <= ps.len(),
            ps.len() >= 2,
            forall|k: int| 0 <= k < i ==> !within(#[trigger] ps@[k], lo, hi),
        decreases ps.len() - i,
    {
        let (x, y) = ps[i];
        if (lt(lo.0, x) || eq(x, lo.0)) && lt(x, hi.0) && (lt(lo.1, y) || eq(y, lo.1)) && lt(
            y,
            hi.1,
        ) {
            assert(within(ps@[i as int], lo, hi));
            return true;
        }
        i += 1;
    }
    false
}

/// The middle of a footprint: its easting and northing as texts, and the column and row that
/// it falls into.
pub struct Middle {
    pub x: String,
    pub y: String,
    pub col: i64,
    pub row: i64,
}

/// Whether this is the cell and the row that a named footprint adds.
pub open spec fn adds_name<M: Fn(&Vec<Point>) -> Middle>(
    g: Grid,
    middle: M,
    ps: Seq<Point>,
    name: Seq<char>,
    cell: i64,
    text: Seq<char>,
) -> bool {
    exists|v: &Vec<Point>, m: Middle|
        v@ == ps && #[trigger] call_ensures(middle, (v,), m) && cell == g.cell_of(
            m.col as int,
            m.row as int,
        ) && text == name_row_of(m.x@, m.y@, name)
}

/// Whether numbers are those of cells of a grid.
pub open spec fn cells_of_grid(cells: Seq<i64>, g: Grid) -> bool {
    forall|i: int| 0 <= i < cells.len() ==> 0 <= #[trigger] cells[i] < g.nc * g.nr
}

/// The buildings that have been drawn: their walls, and of the named ones the cells and rows.
pub struct Walls {
    pub recs: Vec<Rec>,
    pub cells: Vec<i64>,
    pub texts: Vec<String>,
}

impl Walls {
    /// Whether all lies in the cells of a grid, and every name in one.
    pub open spec fn fits(&self, g: Grid) -> bool {
        &&& on_grid(self.recs@, g)
        &&& cells_of_grid(self.cells@, g)
        &&& self.cells.len() == self.texts.len()
    }

    /// Nothing drawn yet.
    pub fn new() -> (r: Walls)
        ensures
            r.recs@ == Seq::<Rec>::empty(),
            r.cells@ == Seq::<i64>::empty(),
            r.texts.deep_view() == Seq::<Seq<char>>::empty(),
            forall|g: Grid| r.fits(g),
    {
        let r = Walls { recs: Vec::new(), cells: Vec::new(), texts: Vec::new() };
        assert(r.texts.deep_view() =~= Seq::<Seq<char>>::empty());
        r
    }

    /// Takes over what has been drawn elsewhere.
    pub fn merge(&mut self, b: Walls)
        ensures
            final(self).recs@ == old(self).recs@ + b.recs@,
            final(self).cells@ == old(self).cells@ + b.cells@,
            final(self).texts.deep_view() == old(self).texts.deep_view() + b.texts.deep_view(),
            forall|g: Grid| old(self).fits(g) && b.fits(g) ==> final(self).fits(g),
    {
        let Walls { mut recs, mut cells, mut texts } = b;
        self.recs.append(&mut recs);
        self.cells.append(&mut cells);
        self.texts.append(&mut texts);
        assert(self.texts.deep_view() =~= old(self).texts.deep_view() + b.texts.deep_view());
    }

    /// Draws a footprint: its walls, and its name if it has one. One without a wall or wholly
    /// off the map is passed over.
    pub fn draw<
        T: Fn(Point, Point) -> Vec<u64>,
        P: Fn(Point, Point, u64, u64) -> Option<(i64, i64)>,
        Q: Fn(Point, Point, u64, u64, u32, u32) -> [u16; 4],
        M: Fn(&Vec<Point>) -> Middle,
    >(
        &mut self,
        g: &Grid,
        w: &Way,
        ps: &Vec<Point>,
        lo: Point,
        hi: Point,
        knife: &Knife<T, P, Q>,
        middle: &M,
    )
        requires
            is_drawn(ps@, lo, hi) ==> g.wf(),
            knife.usable(*g),
            forall|v: &Vec<Point>| v.len() >= 2 ==> #[trigger] call_requires(*middle, (v,)),
            old(self).fits(*g),
        ensures
            final(self).fits(*g),
            is_drawn(ps@, lo, hi) ==> exists|parts: Seq<Seq<Rec>>| #[trigger]
                knife.cut_line(*g, ps@, w.h, w.mh, parts) && final(self).recs@ == old(self).recs@
                    + joined(parts),
            !is_drawn(ps@, lo, hi) ==> final(self).recs@ == old(self).recs@,
            match w.name {
                Some(n) if is_drawn(ps@, lo, hi) => exists|cell: i64, text: Seq<char>| #[trigger]
                    adds_name(*g, *middle, ps@, n@, cell, text) && final(self).cells@ == old(
                        self,
                    ).cells@.push(cell) && final(self).texts.deep_view() == old(
                        self,
                    ).texts.deep_view().push(text),
                _ => final(self).cells@ == old(self).cells@ && final(self).texts.deep_view() == old(
                    self,
                ).texts.deep_view(),
            },
    {
        if !reaches(ps, lo, hi) {
            return ;
        }
        g.clip_line(ps, knife, w.h, w.mh, &mut self.recs);
        match &w.name {
            Some(n) => {
                let m = (*middle)(ps);
                let c = g.cell(m.col, m.row) as i64;
                let t = name_row(m.x.as_str(), m.y.as_str(), n.as_str());
                proof {
                    assert(call_ensures(*middle, (ps,), m));
                    assert(adds_name(*g, *middle, ps@, n@, c, t@));
                }
                let ghost before = self.texts.deep_view();
                let ghost tv = t@;
                self.cells.push(c);
                self.texts.push(t);
                assert(self.texts.deep_view() =~= before.push(tv));
            },
            None => {},
        }
    }
}

/// The row of a named building, given the texts of where it is.
pub open spec fn name_row_of(cx: Seq<char>, cy: Seq<char>, name: Seq<char>) -> Seq<char> {
    cx + "\t"@ + cy + "\t"@ + trimmed(replaced(name, Class::Control, ' ')) + "\n"@
}

/// Writes the row of a named building.
pub fn name_row(cx: &str, cy: &str, name: &str) -> (r: String)
    ensures
        r@ == name_row_of(cx@, cy@, name@),
{
    let mut s = cx.to_owned();
    s.append("\t");
    s.append(cy);
    s.append("\t");
    s.append(trim(replace(name, Class::Control, ' ').as_str()).as_str());
    s.append("\n");
    s
}

/// The bytes of texts, in the order in which their places are listed.
pub open spec fn texts_bytes(ts: Seq<Seq<char>>, r: Seq<usize>) -> Seq<u8>
    decreases r.len(),
{
    if r.len() == 0 {
        Seq::empty()
    } else {
        texts_bytes(ts, r.drop_last()) + encode_utf8(ts[r.last() as int])
    }
}

/// How many of the listed items lie in a cell before the given one.
pub open spec fn below(cells: Seq<i64>, r: Seq<usize>, c: int) -> nat
    decreases r.len(),
{
    if r.len() == 0 {
        0
    } else {
        below(cells, r.drop_last(), c) + if cells[r.last() as int] < c {
            1nat
        } else {
            0nat
        }
    }
}

/// Whether the listed items stand in the order of their cells.
pub open spec fn cells_in_order(cells: Seq<i64>, r: Seq<usize>) -> bool {
    forall|i: int, j: int|
        0 <= i < j < r.len() ==> cells[#[trigger] r[i] as int] <= cells[#[trigger] r[j] as int]
}

/// Whether these are the rows of items in the order of their cells, and where in them the
/// rows of each cell begin.
pub open spec fn sidecar_of(
    cells: Seq<i64>,
    ts: Seq<Seq<char>>,
    n: int,
    r: Seq<usize>,
    tsv: Seq<u8>,
    offsets: Seq<u32>,
) -> bool {
    &&& is_order(cells, ts, r)
    &&& tsv == texts_bytes(ts, r)
    &&& offsets.len() == n + 1
    &&& forall|c: int|
        0 <= c <= n ==> #[trigger] offsets[c] == texts_bytes(
            ts,
            r.take(below(cells, r, c) as int),
        ).len()
}

/// Whether these are the rows of items and where in them the rows of each cell begin.
pub open spec fn has_sidecar(
    cells: Seq<i64>,
    ts: Seq<Seq<char>>,
    n: int,
    tsv: Seq<u8>,
    offsets: Seq<u32>,
) -> bool {
    exists|r: Seq<usize>| #[trigger] sidecar_of(cells, ts, n, r, tsv, offsets)
}

/// Whether the rows of items take more bytes than four bytes can number.
pub open spec fn too_long(cells: Seq<i64>, ts: Seq<Seq<char>>) -> bool {
    exists|r: Seq<usize>| #[trigger]
        is_order(cells, ts, r) && texts_bytes(ts, r).len() > u32::MAX
}

/// The rows of named buildings, and where in them those of each cell begin.
pub struct Sidecar {
    pub tsv: Vec<u8>,
    pub offsets: Vec<u32>,
}

proof fn lemma_cells_in_order(cells: Seq<i64>, ts: Seq<Seq<char>>, r: Seq<usize>)
    requires
        is_order(cells, ts, r),
    ensures
        cells_in_order(cells, r),
{
    assert forall|i: int, j: int| 0 <= i < j < r.len() implies cells[#[trigger] r[i] as int]
        <= cells[#[trigger] r[j] as int] by {
        assert(!rank_lt(rank_at(cells, ts, r[j] as int), rank_at(cells, ts, r[i] as int)));
    }
}

proof fn lemma_below_bound(cells: Seq<i64>, r: Seq<usize>, c: int)
    ensures
        below(cells, r, c) <= r.len(),
    decreases r.len(),
{
    if r.len() > 0 {
        lemma_below_bound(cells, r.drop_last(), c);
    }
}

proof fn lemma_below(cells: Seq<i64>, r: Seq<usize>, c: int, k: int)
    requires
        0 <= k <= r.len(),
        forall|i: int| 0 <= i < k ==> cells[#[trigger] r[i] as int] < c,
        forall|i: int| k <= i < r.len() ==> cells[#[trigger] r[i] as int] >= c,
    ensures
        below(cells, r, c) == k,
    decreases r.len(),
{
    if r.len() > 0 {
        let d = r.drop_last();
        assert forall|i: int| 0 <= i < k && i < d.len() implies cells[#[trigger] d[i] as int] < c by {
            assert(d[i] == r[i]);
        }
        assert forall|i: int| k <= i < d.len() implies cells[#[trigger] d[i] as int] >= c by {
            assert(d[i] == r[i]);
        }
        let last = r[r.len() - 1];
        if k == r.len() {
            assert(cells[r[k - 1] as int] < c);
            lemma_below(cells, d, c, k - 1);
        } else {
            assert(cells[r[r.len() - 1] as int] >= c);
            lemma_below(cells, d, c, k);
        }
    }
}

fn put_text(b: &mut Vec<u8>, t: &str)
    ensures
        final(b)@ == old(b)@ + encode_utf8(t@),
{
    let ghost before = b@;
    let v = t.as_bytes();
    let mut i: usize = 0;
    while i < v.len()
        invariant
            i <= v.len(),
            b@ == before + v@.take(i as int),
        decreases v.len() - i,
    {
        b.push(v[i]);
        i += 1;
        assert(v@.take(i as int) =~= v@.take(i - 1).push(v@[i - 1]));
    }
    assert(v@.take(i as int) =~= v@);
}

/// Orders the rows of named buildings by cell and writes them, with the place in bytes where
/// those of each cell begin. Nothing where that is beyond four bytes.
pub fn sidecar(cells: &Vec<i64>, texts: &Vec<String>, ncell: usize) -> (s: Option<Sidecar>)
    requires
        cells.len() == texts.len(),
        ncell <= 0x1_0000,
        forall|i: int| 0 <= i < cells.len() ==> 0 <= #[trigger] cells@[i] < ncell,
    ensures
        match s {
            Some(s) => has_sidecar(
                cells@,
                texts.deep_view(),
                ncell as int,
                s.tsv@,
                s.offsets@,
            ),
            None => too_long(cells@, texts.deep_view()),
        },
{
    let r = order_of(cells, texts);
    let ghost ts = texts.deep_view();
    proof {
        lemma_cells_in_order(cells@, ts, r@);
    }
    let mut tsv: Vec<u8> = Vec::new();
    let mut i: usize = 0;
    while i < r.len()
        invariant
            i <= r.len(),
            r.len() == texts.len(),
            ts == texts.deep_view(),
            is_order(cells@, ts, r@),
            cells.len() == texts.len(),
            tsv@ == texts_bytes(ts, r@.take(i as int)),
        decreases r.len() - i,
    {
        assert(r@.take(i + 1).drop_last() =~= r@.take(i as int));
        assert(r@[i as int] < cells@.len());
        assert(ts[r@[i as int] as int] == texts@[r@[i as int] as int]@);
        put_text(&mut tsv, texts[r[i]].as_str());
        i += 1;
    }
    assert(r@.take(i as int) =~= r@);
    if tsv.len() > 0xffff_ffff {
        return None;
    }
    let mut offsets: Vec<u32> = Vec::new();
    let mut k: usize = 0;
    let mut at: u32 = 0;
    let mut c: usize = 0;
    assert(r@.take(0) =~= Seq::empty());
    while c <= ncell
        invariant
            c <= ncell + 1,
            ncell <= 0x1_0000,
            k <= r.len(),
            r.len() == texts.len(),
            cells.len() == texts.len(),
            ts == texts.deep_view(),
            is_order(cells@, ts, r@),
            cells_in_order(cells@, r@),
            tsv@ == texts_bytes(ts, r@),
            tsv.len() <= 0xffff_ffff,
            offsets.len() == c,
            at == texts_bytes(ts, r@.take(k as int)).len(),
            forall|i: int| 0 <= i < k ==> cells@[#[trigger] r@[i] as int] < c,
            forall|i: int| k <= i < r.len() ==> cells@[#[trigger] r@[i] as int] >= c,
            forall|j: int|
                0 <= j < c ==> #[trigger] offsets@[j] == texts_bytes(
                    ts,
                    r@.take(below(cells@, r@, j) as int),
                ).len(),
        decreases ncell + 1 - c,
    {
        proof {
            lemma_below(cells@, r@, c as int, k as int);
        }
        offsets.push(at);
        while k < r.len() && cells[r[k]] == c as i64
            invariant
                c <= ncell <= 0x1_0000,
                k <= r.len(),
                r.len() == texts.len(),
                cells.len() == texts.len(),
                ts == texts.deep_view(),
                is_order(cells@, ts, r@),
                cells_in_order(cells@, r@),
                tsv@ == texts_bytes(ts, r@),
                tsv.len() <= 0xffff_ffff,
                at == texts_bytes(ts, r@.take(k as int)).len(),
                forall|i: int| 0 <= i < k ==> cells@[#[trigger] r@[i] as int] < c + 1,
                forall|i: int| k <= i < r.len() ==> cells@[#[trigger] r@[i] as int] >= c,
            decreases r.len() - k,
        {
            assert(r@.take(k + 1).drop_last() =~= r@.take(k as int));
            assert(r@[k as int] < cells@.len());
            assert(ts[r@[k as int] as int] == texts@[r@[k as int] as int]@);
            proof {
                lemma_texts_len(ts, r@, k + 1);
            }
            at = at + texts[r[k]].as_str().as_bytes().len() as u32;
            k += 1;
        }
        assert forall|i: int| k <= i < r.len() implies cells@[#[trigger] r@[i] as int] >= c + 1 by {
            assert(cells@[r@[k as int] as int] <= cells@[r@[i as int] as int] || i == k);
            assert(r@[k as int] < cells@.len());
        }
        c += 1;
    }
    assert(sidecar_of(cells@, ts, ncell as int, r@, tsv@, offsets@));
    assert(has_sidecar(cells@, ts, ncell as int, tsv@, offsets@));
    Some(Sidecar { tsv, offsets })
}

proof fn lemma_texts_len(ts: Seq<Seq<char>>, r: Seq<usize>, k: int)
    requires
        0 <= k <= r.len(),
    ensures
        texts_bytes(ts, r.take(k)).len() <= texts_bytes(ts, r).len(),
    decreases r.len(),
{
    if k == r.len() {
        assert(r.take(k) =~= r);
    } else {
        lemma_texts_len(ts, r.drop_last(), k);
        assert(r.drop_last().take(k) =~= r.take(k));
    }
}

proof fn lemma_texts_split(ts: Seq<Seq<char>>, r: Seq<usize>, a: int, b: int)
    requires
        0 <= a <= b <= r.len(),
    ensures
        texts_bytes(ts, r.take(b)) == texts_bytes(ts, r.take(a)) + texts_bytes(
            ts,
            r.subrange(a, b),
        ),
    decreases b - a,
{
    if a == b {
        assert(r.subrange(a, b) =~= Seq::empty());
        assert(texts_bytes(ts, r.take(b)) =~= texts_bytes(ts, r.take(a)) + texts_bytes(
            ts,
            r.subrange(a, b),
        ));
    } else {
        lemma_texts_split(ts, r, a, b - 1);
        assert(r.take(b).drop_last() =~= r.take(b - 1));
        assert(r.subrange(a, b).drop_last() =~= r.subrange(a, b - 1));
        assert(texts_bytes(ts, r.take(b)) =~= texts_bytes(ts, r.take(a)) + texts_bytes(
            ts,
            r.subrange(a, b),
        ));
    }
}

proof fn lemma_below_splits(cells: Seq<i64>, r: Seq<usize>, c: int, i: int)
    requires
        cells_in_order(cells, r),
        0 <= i < r.len(),
    ensures
        i < below(cells, r, c) <==> cells[r[i] as int] < c,
    decreases r.len(),
{
    let d = r.drop_last();
    lemma_below_bound(cells, d, c);
    assert(cells_in_order(cells, d)) by {
        assert forall|i: int, j: int| 0 <= i < j < d.len() implies cells[#[trigger] d[i] as int]
            <= cells[#[trigger] d[j] as int] by {
            assert(cells[r[i] as int] <= cells[r[j] as int]);
        }
    }
    let n = d.len() as int;
    if i < n {
        lemma_below_splits(cells, d, c, i);
        assert(d[i] == r[i]);
    } else if cells[r[n] as int] < c {
        assert forall|j: int| 0 <= j < n implies cells[#[trigger] d[j] as int] < c by {
            assert(cells[r[j] as int] <= cells[r[n] as int]);
        }
        lemma_below(cells, d, c, n);
    }
    if i < n && cells[r[n] as int] < c {
        assert forall|j: int| 0 <= j < n implies cells[#[trigger] d[j] as int] < c by {
            assert(cells[r[j] as int] <= cells[r[n] as int]);
        }
        lemma_below(cells, d, c, n);
    }
}

proof fn lemma_below_grows(cells: Seq<i64>, r: Seq<usize>, c: int)
    ensures
        below(cells, r, c) <= below(cells, r, c + 1) <= r.len(),
    decreases r.len(),
{
    if r.len() > 0 {
        lemma_below_grows(cells, r.drop_last(), c);
    }
}

/// Between a cell's place and the next stand the rows of that cell and no others.
pub proof fn law_offsets_delimit_cell(
    cells: Seq<i64>,
    ts: Seq<Seq<char>>,
    n: int,
    r: Seq<usize>,
    tsv: Seq<u8>,
    offsets: Seq<u32>,
    c: int,
)
    requires
        sidecar_of(cells, ts, n, r, tsv, offsets),
        0 <= c < n,
    ensures
        ({
            let (a, b) = (below(cells, r, c) as int, below(cells, r, c + 1) as int);
            &&& 0 <= a <= b <= r.len()
            &&& forall|i: int|
                0 <= i < r.len() ==> (a <= i < b <==> cells[#[trigger] r[i] as int] == c)
            &&& offsets[c] <= offsets[c + 1] <= tsv.len()
            &&& tsv.subrange(offsets[c] as int, offsets[c + 1] as int) == texts_bytes(
                ts,
                r.subrange(a, b),
            )
        }),
{
    let (a, b) = (below(cells, r, c) as int, below(cells, r, c + 1) as int);
    lemma_cells_in_order(cells, ts, r);
    lemma_below_grows(cells, r, c);
    assert forall|i: int| 0 <= i < r.len() implies (a <= i < b <==> cells[#[trigger] r[i] as int]
        == c) by {
        lemma_below_splits(cells, r, c, i);
        lemma_below_splits(cells, r, c + 1, i);
    }
    lemma_texts_split(ts, r, a, b);
    lemma_texts_split(ts, r, b, r.len() as int);
    assert(r.take(r.len() as int) =~= r);
    assert(offsets[c] == texts_bytes(ts, r.take(a)).len());
    assert(offsets[c + 1] == texts_bytes(ts, r.take(b)).len());
    assert(tsv.subrange(offsets[c] as int, offsets[c + 1] as int) =~= texts_bytes(
        ts,
        r.subrange(a, b),
    ));
}

/// The value of a key is that of the first tag with it, and a key without a tag has none.
pub proof fn law_first_tag_counts(tags: Seq<(Seq<char>, Seq<char>)>, k: Seq<char>, i: int)
    requires
        0 <= i <= tags.len(),
        forall|j: int| 0 <= j < i ==> (#[trigger] tags[j]).0 != k,
    ensures
        i < tags.len() && tags[i].0 == k ==> tag_of(tags, k) == Some(tags[i].1),
        i == tags.len() ==> tag_of(tags, k) is None,
    decreases tags.len(),
{
    if i > 0 {
        assert(tags[0].0 != k);
        let t = tags.skip(1);
        assert forall|j: int| 0 <= j < i - 1 implies (#[trigger] t[j]).0 != k by {
            assert(t[j] == tags[j + 1]);
        }
        law_first_tag_counts(t, k, i - 1);
        if i < tags.len() {
            assert(t[i - 1] == tags[i]);
        }
    }
}

/// The number in a text is its first run of digits, points and minus signs; where that is no
/// number there is none, whatever follows.
pub proof fn law_first_run_is_the_number(t: Seq<char>)
    ensures
        ({
            let ws = tokens(t, Class::NotNumeric);
            &&& ws.len() > 0 && is_float(ws[0]) ==> num_of(Some(t)) == Some(ws[0])
            &&& ws.len() == 0 || !is_float(ws[0]) ==> num_of(Some(t)) is None
        }),
        num_of(None) is None,
{
}

/// The half metres of a height are the largest whole number of them in it, up to 255. With `m`
/// the significand of a number and `e` its exponent over the bias, the number is `m` times two
/// to the power of `e - 1075`, so that `n` half metres are in it where `n` times two to the power
/// of `1074 - e` is at most `m`.
pub proof fn law_half_metres_are_whole(b: u64)
    requires
        b < 0x7ff0_0000_0000_0000,
    ensures
        ({
            let e = b as int / 0x10_0000_0000_0000;
            let m = 0x10_0000_0000_0000 + b as int % 0x10_0000_0000_0000;
            let n = half_metres(b);
            &&& b < 0x3fe0_0000_0000_0000 ==> n == 0
            &&& b >= 0x4060_0000_0000_0000 ==> n == 255
            &&& 0x3fe0_0000_0000_0000 <= b < 0x4060_0000_0000_0000 ==> 45 <= 1074 - e <= 52 && n
                * pow2((1074 - e) as nat) <= m && m < (n + 1) * pow2((1074 - e) as nat)
        }),
{
    lemma2_to64_rest();
    let s: int = 0x10_0000_0000_0000;
    let e = b as int / s;
    let m = s + b as int % s;
    assert(magnitude(b) == b);
    assert(exponent(b) == e);
    if 0x3fe0_0000_0000_0000 <= b < 0x4060_0000_0000_0000 {
        assert(1022 <= e <= 1029);
        let d = two_to(1074 - e);
        assert(d == pow2((1074 - e) as nat));
        lemma_fundamental_div_mod(m, d);
        let n = m / d;
        assert(n * d <= m && m < (n + 1) * d) by (nonlinear_arith)
            requires
                m == d * n + m % d,
                0 <= m % d < d,
        ;
    }
}

/// A building is as high as it says or else as its levels make it; one that says neither, or
/// nothing above the ground, is eight metres high, and none is lower than two.
pub proof fn law_heights_of_buildings(h: u64, levels: u64)
    requires
        h <= 0x7ff0_0000_0000_0000,
        levels <= 0x7ff0_0000_0000_0000,
    ensures
        height_of(None, None) == 0x4020_0000_0000_0000,
        h == 0 ==> height_of(Some(h), Some(levels)) == 0x4020_0000_0000_0000,
        0 < h < 0x4000_0000_0000_0000 ==> height_of(Some(h), Some(levels)) == 0x4000_0000_0000_0000,
        h >= 0x4000_0000_0000_0000 ==> height_of(Some(h), Some(levels)) == h,
        height_of(None, Some(levels)) == height_of(Some(levels), None),
        height_of(Some(h), Some(levels)) == height_of(Some(h), None),
        height_of(Some((h + 0x8000_0000_0000_0000) as u64), None) == 0x4020_0000_0000_0000,
{
}

/// A building begins at the height that it says where that is above the ground, and else on it.
pub proof fn law_bases_of_buildings(h: u64)
    requires
        h <= 0x7ff0_0000_0000_0000,
    ensures
        base_of(Some(h)) == h,
        base_of(Some((h + 0x8000_0000_0000_0000) as u64)) == 0,
        base_of(None) == 0,
{
}

/// A relation that is a building hands its heights and its name down to each of the ways among
/// its members, in their order; one that is none hands nothing down.
pub proof fn law_relations_hand_down(
    tags: Seq<(Seq<char>, Seq<char>)>,
    h: u8,
    mh: u8,
    ways: Seq<i64>,
    k: int,
)
    requires
        0 <= k < ways.len(),
    ensures
        tag_of(tags, "building"@) is None ==> hands_down(tags, h, mh, ways).len() == 0,
        tag_of(tags, "building"@) is Some ==> {
            let r = hands_down(tags, h, mh, ways);
            &&& r.len() == ways.len()
            &&& r[k].0 == ways[k]
            &&& r[k].1.h == h
            &&& r[k].1.mh == mh
            &&& r[k].1.name == tag_of(tags, "name"@)
        },
{
}

/// Of several relations that hand down to one way, the last counts.
pub proof fn law_last_relation_counts(es: Seq<(i64, InheritedView)>, i: int)
    requires
        0 <= i < es.len(),
        forall|j: int| i < j < es.len() ==> (#[trigger] es[j]).0 != es[i].0,
    ensures
        handed_down(es).contains_key(es[i].0),
        handed_down(es)[es[i].0] == es[i].1,
    decreases es.len(),
{
    if i < es.len() - 1 {
        let d = es.drop_last();
        assert(es[es.len() - 1].0 != es[i].0);
        assert forall|j: int| i < j < d.len() implies (#[trigger] d[j]).0 != d[i].0 by {
            assert(d[j] == es[j]);
        }
        law_last_relation_counts(d, i);
    }
}

/// Nothing is handed down to a way that no relation has.
pub proof fn law_other_ways_inherit_nothing(es: Seq<(i64, InheritedView)>, id: i64)
    requires
        forall|j: int| 0 <= j < es.len() ==> (#[trigger] es[j]).0 != id,
    ensures
        !handed_down(es).contains_key(id),
    decreases es.len(),
{
    if es.len() > 0 {
        let d = es.drop_last();
        assert(es[es.len() - 1].0 != id);
        assert forall|j: int| 0 <= j < d.len() implies (#[trigger] d[j]).0 != id by {
            assert(d[j] == es[j]);
        }
        law_other_ways_inherit_nothing(d, id);
    }
}

/// A way's own heights and its own name go before those handed down to it, each by itself; a way
/// that is no building and inherits nothing is not drawn.
pub proof fn law_own_goes_before_inherited(
    h: u8,
    mh: u8,
    name: Option<Seq<char>>,
    i: InheritedView,
)
    ensures
        ({
            let w = way_of(Some((h, mh)), name, Some(i));
            let v = way_of(None, name, Some(i));
            &&& w is Some && (w->0).h == h && (w->0).mh == mh
            &&& v is Some && (v->0).h == i.h && (v->0).mh == i.mh
            &&& name is Some ==> (w->0).name == name && (v->0).name == name
            &&& name is None ==> (w->0).name == i.name && (v->0).name == i.name
        }),
        way_of(Some((h, mh)), name, None) == Some(InheritedView { h, mh, name }),
        way_of(None, name, None) is None,
{
}

/// A footprint is the places of its nodes in order; a node that is not listed or whose place is
/// not known is passed over.
pub proof fn law_footprint_is_the_known_places(
    ids: Seq<i64>,
    places: Seq<Option<Point>>,
    refs: Seq<i64>,
    i: int,
    id: i64,
)
    requires
        strictly_ascending(ids),
        0 <= i < ids.len(),
        !ids.contains(id),
    ensures
        (places[i] matches Some(p) ==> known_places(ids, places, refs.push(ids[i]))
            == known_places(ids, places, refs).push(p)),
        places[i] is None ==> known_places(ids, places, refs.push(ids[i])) == known_places(
            ids,
            places,
            refs,
        ),
        known_places(ids, places, refs.push(id)) == known_places(ids, places, refs),
{
    assert(refs.push(ids[i]).drop_last() =~= refs);
    assert(refs.push(id).drop_last() =~= refs);
    let j = ids.index_of(ids[i]);
    assert(ids.contains(ids[i]));
    if j < i {
        assert(ids[j] < ids[i]);
    } else if i < j {
        assert(ids[i] < ids[j]);
    }
}

/// A footprint is drawn where it has two points and one of them lies on the map: on its western
/// or southern edge or inside, but not on its eastern or northern edge.
pub proof fn law_footprints_on_the_map(ps: Seq<Point>, lo: Point, hi: Point, i: int)
    requires
        0 <= i < ps.len(),
    ensures
        ps.len() < 2 ==> !is_drawn(ps, lo, hi),
        ps.len() >= 2 && less(lo.0, ps[i].0) && less(ps[i].0, hi.0) && less(lo.1, ps[i].1) && less(
            ps[i].1,
            hi.1,
        ) ==> is_drawn(ps, lo, hi),
        ps.len() >= 2 && equal(lo.0, ps[i].0) && less(ps[i].0, hi.0) && equal(lo.1, ps[i].1) && less(
            ps[i].1,
            hi.1,
        ) ==> is_drawn(ps, lo, hi),
        is_drawn(ps, lo, hi) ==> exists|k: int|
            0 <= k < ps.len() && !less((#[trigger] ps[k]).0, lo.0) && less(ps[k].0, hi.0) && !less(
                ps[k].1,
                lo.1,
            ) && less(ps[k].1, hi.1),
{
    if less(lo.0, ps[i].0) && less(ps[i].0, hi.0) && less(lo.1, ps[i].1) && less(ps[i].1, hi.1) {
        assert(within(ps[i], lo, hi));
    }
    if equal(lo.0, ps[i].0) && less(ps[i].0, hi.0) && equal(lo.1, ps[i].1) && less(ps[i].1, hi.1) {
        assert(within(ps[i], lo, hi));
    }
    if is_drawn(ps, lo, hi) {
        let k = choose|k: int| 0 <= k < ps.len() && within(#[trigger] ps[k], lo, hi);
        assert(!less(ps[k].0, lo.0) && less(ps[k].0, hi.0));
    }
}

/// A named building's row has its easting, its northing and its name between tabs, and ends with
/// a line feed. A name without tabs, line ends and white space around it is shown as it is.
pub proof fn law_row_of_a_name(cx: Seq<char>, cy: Seq<char>, name: Seq<char>)
    requires
        is_trimmed(name),
        forall|i: int|
            0 <= i < name.len() ==> #[trigger] name[i] != '\t' && name[i] != '\n' && name[i] != '\r',
    ensures
        name_row_of(cx, cy, name) == cx + seq!['\t'] + cy + seq!['\t'] + name + seq!['\n'],
{
    reveal_strlit("\t");
    reveal_strlit("\n");
    assert("\t"@ =~= seq!['\t']);
    assert("\n"@ =~= seq!['\n']);
    assert(replaced(name, Class::Control, ' ') =~= name);
    law_trimmed(name);
}

/// Each tab and each end of a line in a name is shown as a space.
pub proof fn law_controls_are_shown_as_spaces(
    cx: Seq<char>,
    cy: Seq<char>,
    a: Seq<char>,
    c: char,
    b: Seq<char>,
)
    requires
        c == '\t' || c == '\n' || c == '\r',
    ensures
        name_row_of(cx, cy, a + seq![c] + b) == name_row_of(cx, cy, a + seq![' '] + b),
{
    assert(replaced(a + seq![c] + b, Class::Control, ' ') =~= replaced(
        a + seq![' '] + b,
        Class::Control,
        ' ',
    ));
}

/// A named footprint's row gives the easting and the northing of its middle, in this order, and
/// belongs to the cell that the middle falls into.
pub proof fn law_names_stand_in_the_middle<M: Fn(&Vec<Point>) -> Middle>(
    g: Grid,
    middle: M,
    ps: Seq<Point>,
    name: Seq<char>,
    cell: i64,
    text: Seq<char>,
)
    requires
        adds_name(g, middle, ps, name, cell, text),
        is_trimmed(name),
        forall|i: int|
            0 <= i < name.len() ==> #[trigger] name[i] != '\t' && name[i] != '\n' && name[i] != '\r',
    ensures
        exists|v: &Vec<Point>, m: Middle| #[trigger]
            call_ensures(middle, (v,), m) && v@ == ps && cell == g.cell_of(
                m.col as int,
                m.row as int,
            ) && text == m.x@ + seq!['\t'] + m.y@ + seq!['\t'] + name + seq!['\n'],
{
    let (v, m) = choose|v: &Vec<Point>, m: Middle|
        v@ == ps && #[trigger] call_ensures(middle, (v,), m) && cell == g.cell_of(
            m.col as int,
            m.row as int,
        ) && text == name_row_of(m.x@, m.y@, name);
    law_row_of_a_name(m.x@, m.y@, name);
    assert(call_ensures(middle, (v,), m));
}

/// The rows of the names follow one another as they are listed.
pub proof fn law_rows_follow_the_list(ts: Seq<Seq<char>>, r: Seq<usize>, k: usize)
    ensures
        texts_bytes(ts, r.push(k)) == texts_bytes(ts, r) + encode_utf8(ts[k as int]),
        texts_bytes(ts, Seq::empty()).len() == 0,
{
    assert(r.push(k).drop_last() =~= r);
}

/// The rows of the names begin at the first cell's place, and the place behind the last cell is
/// the end of them.
pub proof fn law_places_span_the_rows(
    cells: Seq<i64>,
    ts: Seq<Seq<char>>,
    n: int,
    r: Seq<usize>,
    tsv: Seq<u8>,
    offsets: Seq<u32>,
)
    requires
        sidecar_of(cells, ts, n, r, tsv, offsets),
        0 <= n,
        forall|i: int| 0 <= i < cells.len() ==> 0 <= #[trigger] cells[i] < n,
    ensures
        offsets.len() == n + 1,
        offsets[0] == 0,
        offsets[n] == tsv.len(),
        r.len() == cells.len(),
{
    assert forall|i: int| 0 <= i < r.len() implies 0 <= cells[#[trigger] r[i] as int] < n by {
        assert(r[i] < cells.len());
    }
    lemma_below(cells, r, 0, 0);
    lemma_below(cells, r, n, r.len() as int);
    assert(r.take(0) =~= Seq::empty());
    assert(r.take(r.len() as int) =~= r);
    assert(offsets[0] == texts_bytes(ts, r.take(below(cells, r, 0) as int)).len());
    assert(offsets[n] == texts_bytes(ts, r.take(below(cells, r, n) as int)).len());
}

/// A node is referred to where some way lists it, at whichever place, and nowhere else.
pub proof fn law_nodes_of_ways(refs: Seq<Vec<i64>>, id: i64, w: int, i: int)
    ensures
        0 <= w < refs.len() && 0 <= i < refs[w]@.len() && refs[w]@[i] == id ==> refers(refs, id),
        refers(refs, id) ==> exists|v: int, j: int|
            0 <= v < refs.len() && 0 <= j < refs[v]@.len() && #[trigger] refs[v]@[j] == id,
{
    if 0 <= w < refs.len() && 0 <= i < refs[w]@.len() && refs[w]@[i] == id {
        assert(refs[w]@.contains(id));
    }
    if refers(refs, id) {
        let v = choose|v: int| 0 <= v < refs.len() && (#[trigger] refs[v])@.contains(id);
        let j = choose|j: int| 0 <= j < refs[v]@.len() && refs[v]@[j] == id;
        assert(refs[v]@[j] == id);
    }
}

/// The rows are too long where, in order, they take more than 4294967295 bytes; where they are
/// not, the rows and the places in them have an order to go by.
pub proof fn law_rows_too_long_to_number(
    cells: Seq<i64>,
    ts: Seq<Seq<char>>,
    n: int,
    tsv: Seq<u8>,
    offsets: Seq<u32>,
)
    ensures
        too_long(cells, ts) ==> exists|r: Seq<usize>| #[trigger]
            is_order(cells, ts, r) && texts_bytes(ts, r).len() > 0xffff_ffff,
        has_sidecar(cells, ts, n, tsv, offsets) ==> exists|r: Seq<usize>| #[trigger]
            is_order(cells, ts, r) && tsv == texts_bytes(ts, r) && offsets.len() == n + 1,
{
    if has_sidecar(cells, ts, n, tsv, offsets) {
        let r = choose|r: Seq<usize>| #[trigger] sidecar_of(cells, ts, n, r, tsv, offsets);
        assert(is_order(cells, ts, r));
    }
}

} // verus!
