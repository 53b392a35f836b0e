//! Street works: the digs that could not be planned.
use vstd::arithmetic::div_mod::lemma_fundamental_div_mod_converse;
use vstd::prelude::*;
use vstd::string::*;
use crate::archive::{lines_in, packed_lines};
use crate::bucket::first_of;
use crate::keyed::Keyed;
use crate::number::{byte_prefix, byte_range, bytes_between, first_bytes, float_text, integer, integer_within, is_float, law_ascii_prefix, law_ascii_range, parse_integer};
use crate::order::{is_order, law_order_puts_smaller_first, order_of};
use crate::pattern::{regex_is_match, Pattern};
use crate::records::{marker, marker_bytes};
use crate::text::{contains, ends_in, ends_with, holds, law_replaced, law_trimmed, lemma_filter_take, lemma_text_total, lemma_text_transitive, pieces, precedes, replace, replaced, split, stands_at, starts_with, text_lt, trim, trimmed, white, Class};

verus! {

/// Where the archive of events lies, an expression for the promoter, and how the category
/// starts.
pub struct WorksCfg {
    pub dir: String,
    pub promoter: String,
    pub category: String,
}

/// How the category starts by default.
pub fn d_cat() -> (r: String)
    ensures
        r@ == "immediate"@,
{
    "immediate".to_owned()
}

/// Whether a file is one of the archive's.
pub fn is_archive(name: &str) -> (r: bool)
    ensures
        r == ends_in(name@, ".ndjson.gz"@),
{
    ends_with(name, ".ndjson.gz")
}

/// An event in the life of a permit.
pub struct Ev {
    pub permit_reference_number: Option<String>,
    pub promoter_organisation: Option<String>,
    pub works_location_coordinates: Option<String>,
    pub street_name: Option<String>,
    pub town: Option<String>,
    pub highway_authority: Option<String>,
    pub work_category: Option<String>,
    pub work_category_ref: Option<String>,
    pub work_status: Option<String>,
    pub proposed_start_date: Option<String>,
    pub proposed_end_date: Option<String>,
    pub actual_start_date_time: Option<String>,
    pub actual_end_date_time: Option<String>,
    pub event_time: Option<String>,
}

/// The contents of an event.
pub struct EvView {
    pub permit_reference_number: Option<Seq<char>>,
    pub promoter_organisation: Option<Seq<char>>,
    pub works_location_coordinates: Option<Seq<char>>,
    pub street_name: Option<Seq<char>>,
    pub town: Option<Seq<char>>,
    pub highway_authority: Option<Seq<char>>,
    pub work_category: Option<Seq<char>>,
    pub work_category_ref: Option<Seq<char>>,
    pub work_status: Option<Seq<char>>,
    pub proposed_start_date: Option<Seq<char>>,
    pub proposed_end_date: Option<Seq<char>>,
    pub actual_start_date_time: Option<Seq<char>>,
    pub actual_end_date_time: Option<Seq<char>>,
    pub event_time: Option<Seq<char>>,
}

impl DeepView for Ev {
    type V = EvView;

    open spec fn deep_view(&self) -> EvView {
        EvView {
            permit_reference_number: self.permit_reference_number.deep_view(),
            promoter_organisation: self.promoter_organisation.deep_view(),
            works_location_coordinates: self.works_location_coordinates.deep_view(),
            street_name: self.street_name.deep_view(),
            town: self.town.deep_view(),
            highway_authority: self.highway_authority.deep_view(),
            work_category: self.work_category.deep_view(),
            work_category_ref: self.work_category_ref.deep_view(),
            work_status: self.work_status.deep_view(),
            proposed_start_date: self.proposed_start_date.deep_view(),
            proposed_end_date: self.proposed_end_date.deep_view(),
            actual_start_date_time: self.actual_start_date_time.deep_view(),
            actual_end_date_time: self.actual_end_date_time.deep_view(),
            event_time: self.event_time.deep_view(),
        }
    }
}

/// A text that may be missing; empty where it is.
pub open spec fn or_empty(s: Option<Seq<char>>) -> Seq<char> {
    match s {
        Some(t) => t,
        None => Seq::empty(),
    }
}

fn text_or_empty(s: &Option<String>) -> (r: String)
    ensures
        r@ == or_empty(s.deep_view()),
{
    match s {
        Some(t) => t.clone(),
        None => String::new(),
    }
}

/// Whether an event is one of the wanted category and has a permit, and its promoter is the
/// wanted one.
pub open spec fn admitted_if(e: EvView, category: Seq<char>, promoter: bool) -> bool {
    stands_at(or_empty(e.work_category_ref), category, 0) && promoter
        && e.permit_reference_number is Some
}

/// Whether an event counts, given whether its promoter is the wanted one.
pub fn admits_with(e: &Ev, category: &str, promoter: bool) -> (r: bool)
    ensures
        r == admitted_if(e.deep_view(), category@, promoter),
{
    starts_with(text_or_empty(&e.work_category_ref).as_str(), category) && promoter
        && e.permit_reference_number.is_some()
}

/// Whether an event counts: its category starts as wanted, the expression finds its promoter,
/// and it has a permit.
pub fn admits(e: &Ev, category: &str, promoter: &Pattern) -> (r: bool)
    ensures
        r == admitted_if(
            e.deep_view(),
            category@,
            regex_is_match(promoter@, or_empty(e.deep_view().promoter_organisation)),
        ),
{
    let p = promoter.is_match(text_or_empty(&e.promoter_organisation).as_str());
    admits_with(e, category, p)
}

/// The order of times that may be missing: a missing one comes before all others.
pub open spec fn later(a: Option<Seq<char>>, b: Option<Seq<char>>) -> bool {
    match (a, b) {
        (Some(x), Some(y)) => text_lt(y, x),
        (Some(_), None) => true,
        (None, _) => false,
    }
}

fn is_later(a: &Option<String>, b: &Option<String>) -> (r: bool)
    ensures
        r == later(a.deep_view(), b.deep_view()),
{
    match (a, b) {
        (Some(x), Some(y)) => precedes(y.as_str(), x.as_str()),
        (Some(_), None) => true,
        (None, _) => false,
    }
}

/// The event of a permit that stays of two: the later, and of two of one time the first.
pub open spec fn latest_of(a: EvView, b: EvView) -> EvView {
    if later(b.event_time, a.event_time) {
        b
    } else {
        a
    }
}

/// The latest events of two tables together.
pub open spec fn latest_together(
    a: Map<Seq<char>, EvView>,
    b: Map<Seq<char>, EvView>,
) -> Map<Seq<char>, EvView> {
    Map::new(
        |k: Seq<char>| a.contains_key(k) || b.contains_key(k),
        |k: Seq<char>|
            if a.contains_key(k) && b.contains_key(k) {
                latest_of(a[k], b[k])
            } else if a.contains_key(k) {
                a[k]
            } else {
                b[k]
            },
    )
}

/// The table of one event; empty where it has no permit.
pub open spec fn alone(e: EvView) -> Map<Seq<char>, EvView> {
    match e.permit_reference_number {
        Some(k) => Map::empty().insert(k, e),
        None => Map::empty(),
    }
}

/// The latest event of each permit.
pub struct Latest {
    table: Keyed<Ev>,
}

impl View for Latest {
    type V = Map<Seq<char>, EvView>;

    closed spec fn view(&self) -> Map<Seq<char>, EvView> {
        self.table@.map_values(|e: Ev| e.deep_view())
    }
}

impl Latest {
    /// Whether every event stands under its own permit.
    pub closed spec fn wf(&self) -> bool {
        &&& self.table.wf()
        &&& forall|k: Seq<char>| #[trigger]
            self.table@.contains_key(k)
                ==> self.table@[k].deep_view().permit_reference_number == Some(k)
    }

    /// The permits in the order in which they were first met.
    pub closed spec fn order(&self) -> Seq<Seq<char>> {
        self.table.order()
    }

    /// An empty table.
    pub fn new() -> (r: Latest)
        ensures
            r.wf(),
            r@ == Map::<Seq<char>, EvView>::empty(),
    {
        let r = Latest { table: Keyed::new() };
        assert(r@ =~= Map::<Seq<char>, EvView>::empty());
        r
    }

    /// Takes an event in; one without a permit is passed over.
    pub fn add(&mut self, e: Ev)
        requires
            old(self).wf(),
        ensures
            final(self).wf(),
            final(self)@ == latest_together(old(self)@, alone(e.deep_view())),
    {
        let ghost was = self@;
        let ghost one = alone(e.deep_view());
        let k = match &e.permit_reference_number {
            Some(k) => k.clone(),
            None => {
                assert(latest_together(was, one) =~= was);
                return ;
            },
        };
        match self.table.find(k.as_str()) {
            Some(i) => {
                if is_later(&e.event_time, &self.table.value(i).event_time) {
                    self.table.set(i, e);
                }
            },
            None => {
                self.table.push(k, e);
            },
        }
        assert(self@ =~= latest_together(was, one));
    }

    /// Takes the events of another table in.
    pub fn merge(&mut self, b: Latest)
        requires
            old(self).wf(),
            b.wf(),
        ensures
            final(self).wf(),
            final(self)@ == latest_together(old(self)@, b@),
    {
        let ghost was = self@;
        let ghost other = b@;
        let ghost keys = b.table.order();
        let ghost table = b.table@;
        proof {
            b.table.lemma_order();
        }
        let values = b.table.into_values();
        assert forall|i: int| 0 <= i < values.len() implies {
            let e = (#[trigger] values@[i]).deep_view();
            &&& e.permit_reference_number == Some(keys[i])
            &&& other[keys[i]] == e
        } by {
            assert(values@[i] == table[keys[i]]);
            assert(table.contains_key(keys[i]));
        }
        assert(self@ =~= latest_together(was, listed_events(other, keys.take(0))));
        for e in it: values.into_iter()
            invariant
                it.seq() == values@,
                values.len() == keys.len(),
                self.wf(),
                keys.no_duplicates(),
                forall|i: int|
                    0 <= i < values.len() ==> {
                        let e = (#[trigger] values@[i]).deep_view();
                        &&& e.permit_reference_number == Some(keys[i])
                        &&& other[keys[i]] == e
                    },
                self@ == latest_together(was, listed_events(other, keys.take(it.index() as int))),
        {
            let ghost i = it.index() as int;
            assert(e == values@[i]);
            proof {
                lemma_one_more_event(was, other, keys, i);
            }
            self.add(e);
        }
        proof {
            assert(keys.take(keys.len() as int) =~= keys);
            assert(listed_events(other, keys) =~= other);
        }
    }
}

/// The events of a table whose permits are listed.
pub open spec fn listed_events(m: Map<Seq<char>, EvView>, keys: Seq<Seq<char>>) -> Map<
    Seq<char>,
    EvView,
> {
    Map::new(|k: Seq<char>| keys.contains(k), |k: Seq<char>| m[k])
}

proof fn lemma_one_more_event(
    a: Map<Seq<char>, EvView>,
    b: Map<Seq<char>, EvView>,
    keys: Seq<Seq<char>>,
    i: int,
)
    requires
        0 <= i < keys.len(),
        keys.no_duplicates(),
    ensures
        latest_together(
            latest_together(a, listed_events(b, keys.take(i))),
            Map::<Seq<char>, EvView>::empty().insert(keys[i], b[keys[i]]),
        ) == latest_together(a, listed_events(b, keys.take(i + 1))),
{
    let (p, q) = (keys.take(i), keys.take(i + 1));
    assert forall|k: Seq<char>| #[trigger] q.contains(k) <==> p.contains(k) || k == keys[i] by {
        if q.contains(k) {
            let j = choose|j: int| 0 <= j < q.len() && q[j] == k;
            if j < i {
                assert(p[j] == k);
            }
        }
        if p.contains(k) {
            let j = choose|j: int| 0 <= j < p.len() && p[j] == k;
            assert(q[j] == k);
        }
        assert(q[i] == keys[i]);
    }
    assert(!p.contains(keys[i])) by {
        if p.contains(keys[i]) {
            let j = choose|j: int| 0 <= j < p.len() && p[j] == keys[i];
            assert(keys[j] == keys[i]);
        }
    }
    let one = Map::<Seq<char>, EvView>::empty().insert(keys[i], b[keys[i]]);
    assert(latest_together(latest_together(a, listed_events(b, p)), one) =~= latest_together(
        a,
        listed_events(b, q),
    ));
}

proof fn lemma_latest_of(a: EvView, b: EvView, c: EvView)
    ensures
        latest_of(latest_of(a, b), c) == latest_of(a, latest_of(b, c)),
{
    match (a.event_time, b.event_time, c.event_time) {
        (Some(x), Some(y), Some(z)) => {
            lemma_text_total(x, y);
            lemma_text_total(y, z);
            lemma_text_total(x, z);
            if text_lt(x, y) && text_lt(y, z) {
                lemma_text_transitive(x, y, z);
            }
            if text_lt(z, y) && text_lt(y, x) {
                lemma_text_transitive(z, y, x);
            }
        },
        _ => {},
    }
}

/// The latest events can be put together in any grouping.
pub proof fn law_latest_associative(
    a: Map<Seq<char>, EvView>,
    b: Map<Seq<char>, EvView>,
    c: Map<Seq<char>, EvView>,
)
    ensures
        latest_together(latest_together(a, b), c) == latest_together(a, latest_together(b, c)),
{
    let (x, y) = (latest_together(latest_together(a, b), c), latest_together(a, latest_together(b, c)));
    assert forall|k: Seq<char>| #[trigger] x.contains_key(k) implies x[k] == y[k] by {
        if a.contains_key(k) && b.contains_key(k) && c.contains_key(k) {
            lemma_latest_of(a[k], b[k], c[k]);
        }
    }
    assert(x =~= y);
}

/// The latest event of each permit of a run of events.
pub open spec fn latest_events(es: Seq<EvView>) -> Map<Seq<char>, EvView>
    decreases es.len(),
{
    if es.len() == 0 {
        Map::empty()
    } else {
        latest_together(latest_events(es.drop_last()), alone(es.last()))
    }
}

/// However a run of events is cut in two, taking the parts in apart and putting the tables
/// together gives what taking in the whole gives.
pub proof fn law_latest_in_parts(xs: Seq<EvView>, ys: Seq<EvView>)
    ensures
        latest_events(xs + ys) == latest_together(latest_events(xs), latest_events(ys)),
    decreases ys.len(),
{
    if ys.len() == 0 {
        assert(xs + ys =~= xs);
        assert(latest_together(latest_events(xs), Map::empty()) =~= latest_events(xs));
    } else {
        law_latest_in_parts(xs, ys.drop_last());
        assert((xs + ys).drop_last() =~= xs + ys.drop_last());
        law_latest_associative(
            latest_events(xs),
            latest_events(ys.drop_last()),
            alone(ys.last()),
        );
    }
}

/// No event of a permit is later than the one that stays, and the one that stays is an event
/// of that permit.
pub proof fn law_latest_event_wins(es: Seq<EvView>, i: int)
    requires
        0 <= i < es.len(),
        es[i].permit_reference_number is Some,
    ensures
        ({
            let k = es[i].permit_reference_number->0;
            let m = latest_events(es);
            &&& m.contains_key(k)
            &&& !later(es[i].event_time, m[k].event_time)
            &&& m[k].permit_reference_number == Some(k)
            &&& es.contains(m[k])
        }),
    decreases es.len(),
{
    let d = es.drop_last();
    let e = es.last();
    let k = es[i].permit_reference_number->0;
    let m = latest_events(es);
    assert(es[es.len() - 1] == e);
    if i < d.len() {
        law_latest_event_wins(d, i);
        assert(d[i] == es[i]);
        let x = latest_events(d)[k];
        let j = choose|j: int| 0 <= j < d.len() && d[j] == x;
        assert(es[j] == x);
        if e.permit_reference_number == Some(k) && later(e.event_time, x.event_time) {
            lemma_later(es[i].event_time, x.event_time, e.event_time);
        }
    } else {
        lemma_later_self(e.event_time);
        if latest_events(d).contains_key(k) {
            let x = latest_events(d)[k];
            lemma_kept_event(d, k);
            let j = choose|j: int| 0 <= j < d.len() && d[j] == x;
            assert(es[j] == x);
        }
    }
}

/// Whether these are the events that `parse` makes of lines; none where it makes none.
pub open spec fn parsed<F: Fn(&str) -> Option<Ev>>(
    parse: F,
    ls: Seq<Seq<char>>,
    es: Seq<Option<EvView>>,
) -> bool {
    &&& es.len() == ls.len()
    &&& forall|k: int| 0 <= k < es.len() ==> makes(parse, ls[k], #[trigger] es[k])
}

/// Whether `parse` makes this of a line.
pub open spec fn makes<F: Fn(&str) -> Option<Ev>>(
    parse: F,
    l: Seq<char>,
    e: Option<EvView>,
) -> bool {
    exists|t: &str, r: Option<Ev>|
        t@ == l && #[trigger] call_ensures(parse, (t,), r) && r.deep_view() == e
}

/// Whether an event counts.
pub open spec fn counts(e: EvView, category: Seq<char>, promoter: Seq<char>) -> bool {
    admitted_if(e, category, regex_is_match(promoter, or_empty(e.promoter_organisation)))
}

/// The events that count, in order.
pub open spec fn counted(es: Seq<Option<EvView>>, category: Seq<char>, promoter: Seq<char>) -> Seq<
    EvView,
>
    decreases es.len(),
{
    if es.len() == 0 {
        Seq::empty()
    } else {
        let r = counted(es.drop_last(), category, promoter);
        match es.last() {
            Some(e) => if counts(e, category, promoter) {
                r.push(e)
            } else {
                r
            },
            None => r,
        }
    }
}

/// Whether a table is another with the latest of the events in lines that count.
pub open spec fn takes_in<F: Fn(&str) -> Option<Ev>>(
    parse: F,
    ls: Seq<Seq<char>>,
    category: Seq<char>,
    promoter: Seq<char>,
    was: Map<Seq<char>, EvView>,
    now: Map<Seq<char>, EvView>,
) -> bool {
    exists|es: Seq<Option<EvView>>| #[trigger]
        parsed(parse, ls, es) && now == latest_together(
            was,
            latest_events(counted(es, category, promoter)),
        )
}

impl Latest {
    /// Takes in the events that count among lines, each of which `parse` makes an event of or
    /// none.
    pub fn add_lines<F: Fn(&str) -> Option<Ev>>(
        &mut self,
        ls: &Vec<String>,
        category: &str,
        promoter: &Pattern,
        parse: &F,
    )
        requires
            old(self).wf(),
            forall|t: &str| #[trigger] call_requires(*parse, (t,)),
        ensures
            final(self).wf(),
            takes_in(*parse, ls.deep_view(), category@, promoter@, old(self)@, final(self)@),
    {
        let ghost was = self@;
        let ghost lv = ls.deep_view();
        let ghost mut es: Seq<Option<EvView>> = Seq::empty();
        assert(latest_together(was, Map::empty()) =~= was);
        let mut i: usize = 0;
        while i < ls.len()
            invariant
                self.wf(),
                i <= ls.len(),
                lv == ls.deep_view(),
                forall|t: &str| #[trigger] call_requires(*parse, (t,)),
                parsed(*parse, lv.take(i as int), es),
                self@ == latest_together(was, latest_events(counted(es, category@, promoter@))),
            decreases ls.len() - i,
        {
            let t = ls[i].as_str();
            assert(lv[i as int] == t@);
            let e = (*parse)(t);
            let ghost before = es;
            let ghost v = e.deep_view();
            let ghost kept = counted(before, category@, promoter@);
            assert(makes(*parse, lv[i as int], v)) by {
                assert(call_ensures(*parse, (t,), e));
            }
            proof {
                es = es.push(v);
                assert(es.drop_last() =~= before);
                assert forall|k: int| 0 <= k < es.len() implies makes(
                    *parse,
                    lv.take(i + 1)[k],
                    #[trigger] es[k],
                ) by {
                    if k < before.len() {
                        assert(es[k] == before[k]);
                        assert(lv.take(i as int)[k] == lv[k]);
                    }
                }
            }
            match e {
                Some(e) => {
                    if admits(&e, category, promoter) {
                        let ghost ev = e.deep_view();
                        self.add(e);
                        proof {
                            assert(kept.push(ev).drop_last() =~= kept);
                            law_latest_associative(was, latest_events(kept), alone(ev));
                        }
                    }
                },
                None => {},
            }
            i += 1;
        }
        assert(lv.take(i as int) =~= lv);
    }

    /// Takes in the events that count in a packed file.
    pub fn read<F: Fn(&str) -> Option<Ev>>(
        &mut self,
        bytes: &[u8],
        category: &str,
        promoter: &Pattern,
        parse: &F,
    )
        requires
            old(self).wf(),
            forall|t: &str| #[trigger] call_requires(*parse, (t,)),
        ensures
            final(self).wf(),
            exists|ls: Seq<Seq<char>>| #[trigger]
                lines_in(bytes@, ls) && takes_in(
                    *parse,
                    ls,
                    category@,
                    promoter@,
                    old(self)@,
                    final(self)@,
                ),
    {
        let ls = packed_lines(bytes);
        self.add_lines(&ls, category, promoter, parse);
    }
}

proof fn lemma_later_self(a: Option<Seq<char>>)
    ensures
        !later(a, a),
{
    match a {
        Some(x) => {
            lemma_text_total(x, x);
        },
        None => {},
    }
}

proof fn lemma_later(a: Option<Seq<char>>, b: Option<Seq<char>>, c: Option<Seq<char>>)
    requires
        !later(a, b),
        later(c, b),
    ensures
        !later(a, c),
{
    match (a, b, c) {
        (Some(x), Some(y), Some(z)) => {
            lemma_text_total(x, y);
            lemma_text_total(x, z);
            lemma_text_total(y, z);
            if text_lt(z, x) && text_lt(y, z) {
                lemma_text_transitive(y, z, x);
            }
        },
        _ => {},
    }
}

proof fn lemma_kept_event(es: Seq<EvView>, k: Seq<char>)
    requires
        latest_events(es).contains_key(k),
    ensures
        latest_events(es)[k].permit_reference_number == Some(k),
        es.contains(latest_events(es)[k]),
    decreases es.len(),
{
    if es.len() > 0 {
        let d = es.drop_last();
        assert(es[es.len() - 1] == es.last());
        if latest_events(d).contains_key(k) {
            lemma_kept_event(d, k);
            let x = latest_events(d)[k];
            let j = choose|j: int| 0 <= j < d.len() && d[j] == x;
            assert(es[j] == x);
        }
    }
}

/// The numbers in a well-known text, in order: its runs of digits, points and minus signs that
/// are numbers.
pub open spec fn numbers_in(w: Seq<char>) -> Seq<Seq<char>> {
    pieces(w, Class::NotNumeric).filter(|t: Seq<char>| is_float(t))
}

/// Every other of a list, from the first on.
pub open spec fn evens(s: Seq<Seq<char>>) -> Seq<Seq<char>> {
    Seq::new(((s.len() + 1) / 2) as nat, |i: int| s[2 * i])
}

/// Every other of a list, from the second on.
pub open spec fn odds(s: Seq<Seq<char>>) -> Seq<Seq<char>> {
    Seq::new((s.len() / 2) as nat, |i: int| s[2 * i + 1])
}

/// The eastings and northings that a place is the mean of, as texts of numbers, and how many
/// pairs they are. An easting without a northing counts among the former alone.
pub struct Place {
    pub xs: Vec<String>,
    pub ys: Vec<String>,
    pub n: usize,
}

/// The contents of a place.
pub struct PlaceView {
    pub xs: Seq<Seq<char>>,
    pub ys: Seq<Seq<char>>,
    pub n: nat,
}

impl DeepView for Place {
    type V = PlaceView;

    open spec fn deep_view(&self) -> PlaceView {
        PlaceView { xs: self.xs.deep_view(), ys: self.ys.deep_view(), n: self.n as nat }
    }
}

/// The place that a well-known text gives, if it holds a pair of numbers.
pub open spec fn place_of(w: Seq<char>) -> Option<PlaceView> {
    let v = numbers_in(w);
    if v.len() / 2 > 0 {
        Some(PlaceView { xs: evens(v), ys: odds(v), n: (v.len() / 2) as nat })
    } else {
        None
    }
}

/// Reads the place that a well-known text gives.
pub fn centroid(w: &str) -> (r: Option<Place>)
    ensures
        r.deep_view() == place_of(w@),
{
    let ps = split(w, Class::NotNumeric);
    let ghost pv = ps.deep_view();
    let ghost ok = |t: Seq<char>| is_float(t);
    let mut xs: Vec<String> = Vec::new();
    let mut ys: Vec<String> = Vec::new();
    let mut count: usize = 0;
    let mut i: usize = 0;
    proof {
        assert(pv.take(0).filter(ok) =~= Seq::empty());
        assert(xs.deep_view() =~= evens(Seq::empty()));
        assert(ys.deep_view() =~= odds(Seq::empty()));
    }
    while i < ps.len()
        invariant
            i <= ps.len(),
            count <= i,
            pv == ps.deep_view(),
            ok == (|t: Seq<char>| is_float(t)),
            count == pv.take(i as int).filter(ok).len(),
            xs.deep_view() == evens(pv.take(i as int).filter(ok)),
            ys.deep_view() == odds(pv.take(i as int).filter(ok)),
        decreases ps.len() - i,
    {
        let ghost v = pv.take(i as int).filter(ok);
        let ghost t = pv[i as int];
        assert(t == ps@[i as int]@);
        proof {
            lemma_filter_take(pv, ok, i as int);
        }
        if float_text(ps[i].as_str()) {
            let ghost w = v.push(t);
            assert(pv.take(i + 1).filter(ok) =~= w);
            if count % 2 == 0 {
                let ghost before = xs.deep_view();
                xs.push(ps[i].clone());
                assert(xs.deep_view() =~= before.push(t));
                assert(xs.deep_view() =~= evens(w));
                assert(ys.deep_view() =~= odds(w));
            } else {
                let ghost before = ys.deep_view();
                ys.push(ps[i].clone());
                assert(ys.deep_view() =~= before.push(t));
                assert(xs.deep_view() =~= evens(w));
                assert(ys.deep_view() =~= odds(w));
            }
            count += 1;
        } else {
            assert(pv.take(i + 1).filter(ok) =~= v);
        }
        i += 1;
    }
    assert(pv.take(i as int) =~= pv);
    if count / 2 > 0 {
        Some(Place { xs, ys, n: count / 2 })
    } else {
        None
    }
}

/// A part of a date; 0 where the bytes there are no number in its range.
pub open spec fn date_part(s: Seq<char>, i: nat, j: nat, lo: int, hi: int) -> int {
    match byte_range(s, i, j) {
        Some(t) => match integer_within(t, true, lo, hi) {
            Some(v) => v,
            None => 0,
        },
        None => 0,
    }
}

fn read_part(s: &str, i: usize, j: usize, lo: i64, hi: i64) -> (r: i64)
    requires
        -1_000_000_000_000_000_000 <= lo <= 0 <= hi <= 1_000_000_000_000_000_000,
    ensures
        r == date_part(s@, i as nat, j as nat, lo as int, hi as int),
        lo <= r <= hi,
{
    match bytes_between(s, i, j) {
        Some(t) => match parse_integer(t.as_str(), true, lo, hi) {
            Some(v) => v,
            None => 0,
        },
        None => 0,
    }
}

/// The days from the first of January 1970 to a date of the Gregorian calendar, the year being
/// counted from March on.
pub open spec fn day_number(y: int, m: int, d: int) -> int {
    let y = if m <= 2 {
        y - 1
    } else {
        y
    };
    let era = y / 400;
    let yoe = y - era * 400;
    let doy = (153 * ((m + 9) % 12) + 2) / 5 + d - 1;
    era * 146097 + yoe * 365 + yoe / 4 - yoe / 100 + doy - 719468
}

/// The day of a date that starts like `2024-01-31`; a part that is no number counts as 0.
pub open spec fn day_of(s: Seq<char>) -> int {
    day_number(
        date_part(s, 0, 4, -999, 9999),
        date_part(s, 5, 7, -9, 99),
        date_part(s, 8, 10, -9, 99),
    )
}

/// Finds the day of a date.
pub fn day(s: &str) -> (r: i64)
    ensures
        r == day_of(s@),
        -1_500_000 <= r <= 3_500_000,
{
    let y0 = read_part(s, 0, 4, -999, 9999);
    let m = read_part(s, 5, 7, -9, 99);
    let d = read_part(s, 8, 10, -9, 99);
    let y = if m <= 2 {
        y0 - 1
    } else {
        y0
    };
    let z = y + 1200;
    let era = z / 400 - 3;
    assert(era == y as int / 400);
    let yoe = y - era * 400;
    let doy = (153 * ((m + 9) % 12) + 2) / 5 + d - 1;
    era * 146097 + yoe * 365 + yoe / 4 - yoe / 100 + doy - 719468
}

/// Whether a year has a leap day.
pub open spec fn leap_year(y: int) -> bool {
    y % 4 == 0 && (y % 100 != 0 || y % 400 == 0)
}

/// How many days a month has.
pub open spec fn month_days(y: int, m: int) -> int {
    if m == 2 {
        if leap_year(y) {
            29
        } else {
            28
        }
    } else if m == 4 || m == 6 || m == 9 || m == 11 {
        30
    } else {
        31
    }
}

/// Days are numbered along the Gregorian calendar: the first of January 1970 is day 0, days
/// within a month follow each other, and a month's first day follows the last of the month
/// before it.
pub proof fn law_days_follow_calendar(y: int, m: int, d: int)
    requires
        1 <= m <= 12,
    ensures
        day_number(1970, 1, 1) == 0,
        day_number(y, m, d + 1) == day_number(y, m, d) + 1,
        m < 12 ==> day_number(y, m + 1, 1) == day_number(y, m, month_days(y, m)) + 1,
        m == 12 ==> day_number(y + 1, 1, 1) == day_number(y, m, month_days(y, m)) + 1,
{
    if m == 2 {
        lemma_leap_turn(y);
    }
}

proof fn lemma_step(a: int, n: int)
    requires
        n == 4 || n == 100,
    ensures
        a / n - (a - 1) / n == if a % n == 0 {
            1int
        } else {
            0int
        },
{
}

proof fn lemma_residues(y: int, e: int, a: int)
    requires
        y == 400 * e + a,
        0 <= a < 400,
    ensures
        y / 400 == e,
        y % 400 == a,
        y % 4 == a % 4,
        y % 100 == a % 100,
{
    lemma_fundamental_div_mod_converse(y, 400, e, a);
    lemma_fundamental_div_mod_converse(y, 4, 100 * e + a / 4, a % 4);
    lemma_fundamental_div_mod_converse(y, 100, 4 * e + a / 100, a % 100);
}

proof fn lemma_leap_turn(y: int)
    ensures
        day_number(y, 3, 1) == day_number(y, 2, month_days(y, 2)) + 1,
{
    let e = y / 400;
    let a = y % 400;
    lemma_residues(y, e, a);
    lemma_step(a, 4);
    lemma_step(a, 100);
    if a == 0 {
        lemma_residues(y - 1, e - 1, 399);
        assert(day_number(y, 3, 1) == e * 146097 - 719468);
        assert(day_number(y, 2, 29) == (e - 1) * 146097 + 399 * 365 + 99 - 3 + 365 - 719468);
    } else {
        lemma_residues(y - 1, e, a - 1);
        let b = a - 1;
        assert(day_number(y, 3, 1) == e * 146097 + a * 365 + a / 4 - a / 100 - 719468);
        assert(day_number(y, 2, 28) == e * 146097 + b * 365 + b / 4 - b / 100 + 364 - 719468);
        assert(day_number(y, 2, 29) == day_number(y, 2, 28) + 1);
        assert(a % 100 == 0 ==> a % 4 == 0);
    }
}

/// A field without tabs and line ends, and without white space around it.
pub open spec fn cleaned(s: Option<Seq<char>>) -> Seq<char> {
    trimmed(replaced(or_empty(s), Class::TabOrNewline, ' '))
}

fn clean(s: &Option<String>) -> (r: String)
    ensures
        r@ == cleaned(s.deep_view()),
{
    trim(replace(text_or_empty(s).as_str(), Class::TabOrNewline, ' ').as_str())
}

/// The date at the start of a time, in its first ten bytes.
pub open spec fn date_of(s: Seq<char>) -> Seq<char> {
    or_empty(byte_prefix(s, 10))
}

fn date(s: &str) -> (r: String)
    ensures
        r@ == date_of(s@),
{
    match first_bytes(s, 10) {
        Some(t) => t,
        None => String::new(),
    }
}

/// A dig as it is shown: where, when, whether it was an emergency, and its fields.
pub struct Dig {
    pub place: Place,
    pub day: i64,
    pub emergency: bool,
    pub fields: Vec<String>,
}

/// The contents of a dig.
pub struct DigView {
    pub place: PlaceView,
    pub day: int,
    pub emergency: bool,
    pub fields: Seq<Seq<char>>,
}

impl DeepView for Dig {
    type V = DigView;

    open spec fn deep_view(&self) -> DigView {
        DigView {
            place: self.place.deep_view(),
            day: self.day as int,
            emergency: self.emergency,
            fields: self.fields.deep_view(),
        }
    }
}

/// The bit pattern of the flag of an emergency, the number one.
pub const EMERGENCY: u32 = 0x3f80_0000;

/// Writes the marker of a dig, given the bit patterns of its easting, its northing and its day.
pub fn dig_marker(d: &Dig, x: u32, y: u32, day: u32) -> (b: Vec<u8>)
    ensures
        b@ == marker_bytes(
            x,
            y,
            day,
            if d.emergency {
                EMERGENCY
            } else {
                0
            },
        ),
{
    let flag: u32 = if d.emergency {
        EMERGENCY
    } else {
        0
    };
    marker(x, y, day, flag)
}

/// The dig of an event; none where it has no place. Its dates are the actual ones or else the
/// proposed ones.
pub open spec fn dig_of(e: EvView) -> Option<DigView> {
    let start = or_empty(first_of(e.actual_start_date_time, e.proposed_start_date));
    let end = or_empty(first_of(e.actual_end_date_time, e.proposed_end_date));
    match e.works_location_coordinates {
        None => None,
        Some(w) => match place_of(w) {
            None => None,
            Some(place) => Some(
                DigView {
                    place,
                    day: day_of(start),
                    emergency: holds(or_empty(e.work_category_ref), "emergency"@),
                    fields: seq![
                        cleaned(e.permit_reference_number),
                        cleaned(e.work_category),
                        cleaned(e.work_status),
                        cleaned(e.street_name),
                        cleaned(e.town),
                        cleaned(e.highway_authority),
                        date_of(start),
                        date_of(end),
                    ],
                },
            ),
        },
    }
}

fn either(a: &Option<String>, b: &Option<String>) -> (r: String)
    ensures
        r@ == or_empty(first_of(a.deep_view(), b.deep_view())),
{
    match a {
        Some(t) => t.clone(),
        None => text_or_empty(b),
    }
}

/// Makes the dig of an event.
pub fn dig(e: &Ev) -> (r: Option<Dig>)
    ensures
        r.deep_view() == dig_of(e.deep_view()),
        r matches Some(d) ==> d.fields.len() == 8,
        r matches Some(d) ==> {
            &&& e.permit_reference_number matches Some(t) ==> shows(d.fields@[0]@, t@)
            &&& e.work_category matches Some(t) ==> shows(d.fields@[1]@, t@)
            &&& e.work_status matches Some(t) ==> shows(d.fields@[2]@, t@)
            &&& e.street_name matches Some(t) ==> shows(d.fields@[3]@, t@)
            &&& e.town matches Some(t) ==> shows(d.fields@[4]@, t@)
            &&& e.highway_authority matches Some(t) ==> shows(d.fields@[5]@, t@)
        },
{
    let w = match &e.works_location_coordinates {
        Some(w) => w,
        None => {
            return None;
        },
    };
    let place = match centroid(w.as_str()) {
        Some(p) => p,
        None => {
            return None;
        },
    };
    let start = either(&e.actual_start_date_time, &e.proposed_start_date);
    let end = either(&e.actual_end_date_time, &e.proposed_end_date);
    let mut fields: Vec<String> = Vec::new();
    fields.push(clean(&e.permit_reference_number));
    fields.push(clean(&e.work_category));
    fields.push(clean(&e.work_status));
    fields.push(clean(&e.street_name));
    fields.push(clean(&e.town));
    fields.push(clean(&e.highway_authority));
    fields.push(date(start.as_str()));
    fields.push(date(end.as_str()));
    let d = Dig {
        place,
        day: day(start.as_str()),
        emergency: contains(text_or_empty(&e.work_category_ref).as_str(), "emergency"),
        fields,
    };
    let ghost f = (dig_of(e.deep_view())->0).fields;
    assert(d.deep_view().fields =~= f);
    proof {
        law_dig_shows_its_event(e.deep_view());
        assert(f[0] == d.fields@[0]@ && f[1] == d.fields@[1]@ && f[2] == d.fields@[2]@);
        assert(f[3] == d.fields@[3]@ && f[4] == d.fields@[4]@ && f[5] == d.fields@[5]@);
    }
    Some(d)
}

impl Latest {
    /// The digs of the permits, in the order in which the permits were first met.
    pub fn digs(&self) -> (r: Vec<Dig>)
        requires
            self.wf(),
        ensures
            r.deep_view() == digs_of(self@, self.order()),
            self.order().no_duplicates(),
            forall|k: Seq<char>| #[trigger] self@.contains_key(k) <==> self.order().contains(k),
            forall|i: int| 0 <= i < r.len() ==> (#[trigger] r@[i]).fields.len() == 8,
    {
        proof {
            self.table.lemma_order();
        }
        let ghost keys = self.order();
        let mut out: Vec<Dig> = Vec::new();
        let n = self.table.len();
        let mut i: usize = 0;
        assert(out.deep_view() =~= digs_of(self@, keys.take(0)));
        while i < n
            invariant
                self.wf(),
                keys == self.order(),
                i <= n == keys.len(),
                out.deep_view() == digs_of(self@, keys.take(i as int)),
                forall|i: int| 0 <= i < out.len() ==> (#[trigger] out@[i]).fields.len() == 8,
            decreases n - i,
        {
            assert(keys.take(i + 1).drop_last() =~= keys.take(i as int));
            let e = self.table.value(i);
            assert(self@[keys[i as int]] == e.deep_view());
            let ghost before = out.deep_view();
            match dig(e) {
                Some(d) => {
                    let ghost v = d.deep_view();
                    out.push(d);
                    assert(out.deep_view() =~= before.push(v));
                },
                None => {},
            }
            i += 1;
        }
        assert(keys.take(n as int) =~= keys);
        out
    }
}

/// The digs of the permits in some order; a permit without a place has none.
pub open spec fn digs_of(m: Map<Seq<char>, EvView>, order: Seq<Seq<char>>) -> Seq<DigView>
    decreases order.len(),
{
    if order.len() == 0 {
        Seq::empty()
    } else {
        let r = digs_of(m, order.drop_last());
        match dig_of(m[order.last()]) {
            Some(d) => r.push(d),
            None => r,
        }
    }
}

/// The days of digs.
pub open spec fn dig_days(ds: Seq<Dig>) -> Seq<i64> {
    ds.map_values(|d: Dig| d.day)
}

/// The permits of digs.
pub open spec fn dig_permits(ds: Seq<Dig>) -> Seq<Seq<char>> {
    ds.map_values(|d: Dig| d.fields@[0]@)
}

/// Orders digs by day and, on one day, by permit.
pub fn dig_order(ds: &Vec<Dig>) -> (r: Vec<usize>)
    requires
        forall|i: int| 0 <= i < ds.len() ==> (#[trigger] ds@[i]).fields.len() >= 1,
    ensures
        is_order(dig_days(ds@), dig_permits(ds@), r@),
{
    let mut days: Vec<i64> = Vec::new();
    let mut permits: Vec<String> = Vec::new();
    let mut i: usize = 0;
    assert(permits.deep_view() =~= dig_permits(ds@).take(0));
    while i < ds.len()
        invariant
            i <= ds.len(),
            forall|i: int| 0 <= i < ds.len() ==> (#[trigger] ds@[i]).fields.len() >= 1,
            days@ == dig_days(ds@).take(i as int),
            permits.deep_view() == dig_permits(ds@).take(i as int),
            permits.len() == i,
        decreases ds.len() - i,
    {
        assert(ds@[i as int].fields.len() >= 1);
        days.push(ds[i].day);
        let t = ds[i].fields[0].clone();
        let ghost tv = t@;
        let ghost before = permits.deep_view();
        permits.push(t);
        assert(permits.deep_view() =~= before.push(tv));
        i += 1;
        assert(dig_days(ds@).take(i as int) =~= dig_days(ds@).take(i - 1).push(
            dig_days(ds@)[i - 1],
        ));
        assert(dig_permits(ds@).take(i as int) =~= dig_permits(ds@).take(i - 1).push(
            dig_permits(ds@)[i - 1],
        ));
    }
    assert(dig_days(ds@).take(i as int) =~= dig_days(ds@));
    assert(dig_permits(ds@).take(i as int) =~= dig_permits(ds@));
    order_of(&days, &permits)
}

/// Fields with tabs between them.
pub open spec fn tabbed(fs: Seq<Seq<char>>) -> Seq<char>
    decreases fs.len(),
{
    if fs.len() == 0 {
        Seq::empty()
    } else if fs.len() == 1 {
        fs[0]
    } else {
        tabbed(fs.drop_last()) + seq!['\t'] + fs.last()
    }
}

/// Writes fields with tabs between them.
pub fn tsv_line(fs: &Vec<String>) -> (r: String)
    ensures
        r@ == tabbed(fs.deep_view()),
{
    let ghost v = fs.deep_view();
    let mut s = String::new();
    let mut i: usize = 0;
    assert(s@ =~= tabbed(v.take(0)));
    while i < fs.len()
        invariant
            i <= fs.len(),
            v == fs.deep_view(),
            s@ == tabbed(v.take(i as int)),
        decreases fs.len() - i,
    {
        assert(v.take(i + 1).drop_last() =~= v.take(i as int));
        assert(v.take(i + 1).last() == fs@[i as int]@);
        let ghost before = s@;
        if i > 0 {
            s.push('\t');
        }
        s.append(fs[i].as_str());
        if i > 0 {
            assert(s@ =~= before + seq!['\t'] + v[i as int]);
        } else {
            assert(s@ =~= v[0]);
        }
        i += 1;
    }
    assert(v.take(i as int) =~= v);
    s
}

/// Whether a text has no tab, no line feed and no white space around it.
pub open spec fn is_clean(s: Seq<char>) -> bool {
    &&& forall|i: int| 0 <= i < s.len() ==> #[trigger] s[i] != '\t' && s[i] != '\n'
    &&& s.len() > 0 ==> !white(s[0]) && !white(s.last())
}

/// Whether a field shows a text: the text from some place to another with a space for each tab
/// and line feed, all that is left out being white space, tabs and line feeds.
pub open spec fn shows(field: Seq<char>, s: Seq<char>) -> bool {
    exists|i: int, j: int| #[trigger] shows_between(field, s, i, j)
}

/// Whether a field shows a text from one place to another.
pub open spec fn shows_between(field: Seq<char>, s: Seq<char>, i: int, j: int) -> bool {
    &&& 0 <= i <= j <= s.len()
    &&& field.len() == j - i
    &&& forall|k: int|
        i <= k < j ==> #[trigger] field[k - i] == if s[k] == '\t' || s[k] == '\n' {
            ' '
        } else {
            s[k]
        }
    &&& forall|k: int|
        0 <= k < i || j <= k < s.len() ==> white(#[trigger] s[k]) || s[k] == '\t' || s[k] == '\n'
}

proof fn lemma_cleaned(s: Option<Seq<char>>)
    ensures
        is_clean(cleaned(s)),
        s is None ==> cleaned(s).len() == 0,
        s matches Some(t) ==> shows(cleaned(s), t),
        s matches Some(t) ==> (is_clean(t) ==> cleaned(s) == t),
{
    let t = or_empty(s);
    let r = replaced(t, Class::TabOrNewline, ' ');
    law_trimmed(r);
    let c = cleaned(s);
    let (i, j) = choose|i: int, j: int|
        0 <= i <= j <= r.len() && trimmed(r) == #[trigger] r.subrange(i, j) && (forall|k: int|
            0 <= k < i || j <= k < r.len() ==> white(#[trigger] r[k]));
    assert forall|k: int| 0 <= k < c.len() implies #[trigger] c[k] != '\t' && c[k] != '\n' by {
        assert(c[k] == r[i + k]);
        law_replaced(t, Class::TabOrNewline, ' ', i + k);
    }
    assert(shows_between(c, t, i, j)) by {
        assert forall|k: int| i <= k < j implies #[trigger] c[k - i] == (if t[k] == '\t' || t[k]
            == '\n' {
            ' '
        } else {
            t[k]
        }) by {
            assert(c[k - i] == r[k]);
        }
        assert forall|k: int| 0 <= k < i || j <= k < t.len() implies white(#[trigger] t[k]) || t[k]
            == '\t' || t[k] == '\n' by {
            assert(white(r[k]));
        }
    }
    if is_clean(t) {
        assert(r =~= t);
    }
}

/// A dig shows its event: its permit, category, status, street, town and authority in this
/// order, each the event's own with a space for each tab and line feed and without white space
/// around it, empty where the event has none; then the dates on which it starts and ends.
pub proof fn law_dig_shows_its_event(e: EvView)
    requires
        dig_of(e) is Some,
    ensures
        ({
            let f = (dig_of(e)->0).fields;
            &&& f.len() == 8
            &&& (e.permit_reference_number matches Some(t) ==> shows(f[0], t))
            &&& (e.work_category matches Some(t) ==> shows(f[1], t))
            &&& (e.work_status matches Some(t) ==> shows(f[2], t))
            &&& (e.street_name matches Some(t) ==> shows(f[3], t))
            &&& (e.town matches Some(t) ==> shows(f[4], t))
            &&& (e.highway_authority matches Some(t) ==> shows(f[5], t))
            &&& e.permit_reference_number is None ==> f[0].len() == 0
            &&& e.work_category is None ==> f[1].len() == 0
            &&& e.work_status is None ==> f[2].len() == 0
            &&& e.street_name is None ==> f[3].len() == 0
            &&& e.town is None ==> f[4].len() == 0
            &&& e.highway_authority is None ==> f[5].len() == 0
            &&& forall|i: int| 0 <= i < 6 ==> is_clean(#[trigger] f[i])
        }),
{
    lemma_cleaned(e.permit_reference_number);
    lemma_cleaned(e.work_category);
    lemma_cleaned(e.work_status);
    lemma_cleaned(e.street_name);
    lemma_cleaned(e.town);
    lemma_cleaned(e.highway_authority);
}

/// What is clean is shown as it is.
pub proof fn law_clean_fields_are_shown_as_they_are(e: EvView)
    requires
        dig_of(e) is Some,
    ensures
        ({
            let f = (dig_of(e)->0).fields;
            &&& (e.permit_reference_number matches Some(t) ==> is_clean(t) ==> f[0] == t)
            &&& (e.work_category matches Some(t) ==> is_clean(t) ==> f[1] == t)
            &&& (e.work_status matches Some(t) ==> is_clean(t) ==> f[2] == t)
            &&& (e.street_name matches Some(t) ==> is_clean(t) ==> f[3] == t)
            &&& (e.town matches Some(t) ==> is_clean(t) ==> f[4] == t)
            &&& (e.highway_authority matches Some(t) ==> is_clean(t) ==> f[5] == t)
        }),
{
    lemma_cleaned(e.permit_reference_number);
    lemma_cleaned(e.work_category);
    lemma_cleaned(e.work_status);
    lemma_cleaned(e.street_name);
    lemma_cleaned(e.town);
    lemma_cleaned(e.highway_authority);
}

/// Two events with different clean towns make different digs, and different rows of text.
pub proof fn law_towns_tell_digs_apart(a: EvView, b: EvView)
    requires
        dig_of(a) is Some,
        dig_of(b) is Some,
        a.town is Some,
        b.town is Some,
        is_clean(a.town->0),
        is_clean(b.town->0),
        a.town != b.town,
    ensures
        (dig_of(a)->0).fields[4] != (dig_of(b)->0).fields[4],
        (dig_of(a)->0).fields != (dig_of(b)->0).fields,
{
    law_clean_fields_are_shown_as_they_are(a);
    law_clean_fields_are_shown_as_they_are(b);
}

/// A dig takes its dates from the actual ones where the event has them and else from the
/// proposed ones; a date is the first ten bytes of a time, and the day is the day of the start.
pub proof fn law_dates_are_actual_or_proposed(e: EvView, s: Seq<char>, t: Seq<char>)
    requires
        dig_of(e) is Some,
        e.actual_start_date_time == Some(s) || (e.actual_start_date_time is None
            && e.proposed_start_date == Some(s)),
        e.actual_end_date_time == Some(t) || (e.actual_end_date_time is None
            && e.proposed_end_date == Some(t)),
        s.len() >= 10,
        t.len() >= 10,
        forall|i: int| 0 <= i < s.len() ==> (#[trigger] s[i] as u32) < 0x80,
        forall|i: int| 0 <= i < t.len() ==> (#[trigger] t[i] as u32) < 0x80,
    ensures
        (dig_of(e)->0).fields[6] == s.subrange(0, 10),
        (dig_of(e)->0).fields[7] == t.subrange(0, 10),
        (dig_of(e)->0).day == day_of(s),
{
    law_ascii_prefix(s, 10);
    law_ascii_prefix(t, 10);
    assert(s.take(10) =~= s.subrange(0, 10));
    assert(t.take(10) =~= t.subrange(0, 10));
}

/// An event without a date has empty ones.
pub proof fn law_missing_dates_are_empty(e: EvView)
    requires
        dig_of(e) is Some,
    ensures
        e.actual_start_date_time is None && e.proposed_start_date is None ==> (
        dig_of(e)->0).fields[6].len() == 0,
        e.actual_end_date_time is None && e.proposed_end_date is None ==> (
        dig_of(e)->0).fields[7].len() == 0,
{
    let none = Seq::<char>::empty();
    law_ascii_prefix(none, 10);
}

/// The day of a date is that of its year, month and day: the numbers in its characters 0 to 4,
/// 5 to 7 and 8 to 10.
pub proof fn law_day_of_written_date(s: Seq<char>, y: int, m: int, d: int)
    requires
        s.len() >= 10,
        forall|i: int| 0 <= i < s.len() ==> (#[trigger] s[i] as u32) < 0x80,
        integer(s.subrange(0, 4), true) == Some(y),
        integer(s.subrange(5, 7), true) == Some(m),
        integer(s.subrange(8, 10), true) == Some(d),
        0 <= y <= 9999,
        1 <= m <= 12,
        1 <= d <= 31,
    ensures
        day_of(s) == day_number(y, m, d),
{
    law_ascii_range(s, 0, 4);
    law_ascii_range(s, 5, 7);
    law_ascii_range(s, 8, 10);
}

/// A dig is an emergency where the word stands somewhere in its category's name, and only there.
pub proof fn law_emergencies_are_named(e: EvView, before: Seq<char>, behind: Seq<char>)
    requires
        dig_of(e) is Some,
    ensures
        e.work_category_ref == Some(before + "emergency"@ + behind) ==> (dig_of(e)->0).emergency,
        e.work_category_ref is None ==> !(dig_of(e)->0).emergency,
        (dig_of(e)->0).emergency ==> exists|i: int|
            0 <= i <= (e.work_category_ref->0).len() - 9 && #[trigger] (
            e.work_category_ref->0).subrange(i, i + 9) == "emergency"@,
{
    reveal_strlit("emergency");
    let w = "emergency"@;
    let s = before + w + behind;
    let n = before.len() as int;
    assert(s.subrange(n, n + 9) =~= w);
    assert(stands_at(s, w, n));
    let t = or_empty(e.work_category_ref);
    if (dig_of(e)->0).emergency {
        let i = choose|i: int| stands_at(t, w, i);
        assert(t.subrange(i, i + 9) == w);
    }
}

/// There is a dig where the event has a place with a pair of numbers, and only there. The
/// numbers in the place's text are eastings and northings in turn, and the pairs are counted.
pub proof fn law_dig_stands_at_its_place(e: EvView, k: int)
    ensures
        e.works_location_coordinates is None ==> dig_of(e) is None,
        e.works_location_coordinates matches Some(w) ==> {
            let v = numbers_in(w);
            &&& v.len() < 2 ==> dig_of(e) is None
            &&& v.len() >= 2 ==> {
                &&& dig_of(e) is Some
                &&& 2 * (dig_of(e)->0).place.n <= v.len() < 2 * (dig_of(e)->0).place.n + 2
                &&& (dig_of(e)->0).place.xs.len() + (dig_of(e)->0).place.ys.len() == v.len()
                &&& 0 <= 2 * k < v.len() ==> (dig_of(e)->0).place.xs[k] == v[2 * k]
                &&& 0 < 2 * k + 1 < v.len() ==> (dig_of(e)->0).place.ys[k] == v[2 * k + 1]
            }
        },
{
}

/// The numbers of a place's text are its pieces of digits, points and minus signs that are
/// numbers, and no number is left out.
pub proof fn law_numbers_of_a_place(w: Seq<char>, i: int)
    requires
        0 <= i < pieces(w, Class::NotNumeric).len(),
    ensures
        is_float(pieces(w, Class::NotNumeric)[i]) ==> numbers_in(w).contains(
            pieces(w, Class::NotNumeric)[i],
        ),
        forall|j: int|
            0 <= j < numbers_in(w).len() ==> is_float(#[trigger] numbers_in(w)[j]) && pieces(
                w,
                Class::NotNumeric,
            ).contains(numbers_in(w)[j]),
{
    let ps = pieces(w, Class::NotNumeric);
    let ok = |t: Seq<char>| is_float(t);
    let v = numbers_in(w);
    if is_float(ps[i]) {
        ps.lemma_filter_contains(ok, i);
    }
    assert forall|j: int| 0 <= j < v.len() implies is_float(#[trigger] v[j]) && ps.contains(v[j]) by {
        ps.lemma_filter_pred(ok, j);
        ps.lemma_filter_contains_rev(ok, v[j]);
    }
}

/// An event counts where its category begins as wanted, its promoter is the wanted one and it
/// has a permit: all three are needed.
pub proof fn law_all_three_are_needed(e: EvView, category: Seq<char>, more: Seq<char>)
    ensures
        !admitted_if(e, category, false),
        e.permit_reference_number is None ==> !admitted_if(e, category, true),
        e.work_category_ref == Some(category + more) && e.permit_reference_number is Some
            ==> admitted_if(e, category, true),
        admitted_if(e, category, true) && category.len() > 0 ==> e.work_category_ref is Some
            && category.len() <= (e.work_category_ref->0).len() && (
        e.work_category_ref->0).subrange(0, category.len() as int) == category,
{
    assert((category + more).subrange(0, category.len() as int) =~= category);
}

/// Of two events of a permit the one with the greater time stays; one with a time is later than
/// one without, and of two of one time the first stays.
pub proof fn law_later_event_stays(a: EvView, b: EvView)
    ensures
        a.event_time is Some && b.event_time is Some && text_lt(a.event_time->0, b.event_time->0)
            ==> latest_of(a, b) == b && latest_of(b, a) == b,
        a.event_time is None && b.event_time is Some ==> latest_of(a, b) == b && latest_of(b, a)
            == b,
        a.event_time == b.event_time ==> latest_of(a, b) == a,
{
    lemma_later_self(a.event_time);
    if a.event_time is Some && b.event_time is Some {
        lemma_text_total(a.event_time->0, b.event_time->0);
    }
}

/// Each permit has one event in the table, and the events of other permits do not bear on it.
pub proof fn law_permits_do_not_mix(a: Map<Seq<char>, EvView>, e: EvView, k: Seq<char>)
    requires
        e.permit_reference_number is Some,
    ensures
        ({
            let p = e.permit_reference_number->0;
            let m = latest_together(a, alone(e));
            &&& m.contains_key(p)
            &&& !a.contains_key(p) ==> m[p] == e
            &&& a.contains_key(p) ==> m[p] == latest_of(a[p], e)
            &&& k != p ==> (m.contains_key(k) <==> a.contains_key(k))
            &&& k != p && a.contains_key(k) ==> m[k] == a[k]
        }),
{
}

/// Of the events, those count that are admitted, in their order, and lines without one are passed
/// over.
pub proof fn law_counted_are_the_admitted(
    es: Seq<Option<EvView>>,
    e: EvView,
    category: Seq<char>,
    promoter: Seq<char>,
)
    ensures
        ({
            let ok = admitted_if(
                e,
                category,
                regex_is_match(promoter, or_empty(e.promoter_organisation)),
            );
            let r = counted(es, category, promoter);
            &&& counted(es.push(None), category, promoter) == r
            &&& ok ==> counted(es.push(Some(e)), category, promoter) == r.push(e)
            &&& !ok ==> counted(es.push(Some(e)), category, promoter) == r
        }),
{
    assert(es.push(None).drop_last() =~= es);
    assert(es.push(Some(e)).drop_last() =~= es);
}

/// The digs come in the order of the permits, one for each permit that has one.
pub proof fn law_digs_follow_permits(m: Map<Seq<char>, EvView>, order: Seq<Seq<char>>, k: Seq<char>)
    ensures
        dig_of(m[k]) is Some ==> digs_of(m, order.push(k)) == digs_of(m, order).push(dig_of(m[k])->0),
        dig_of(m[k]) is None ==> digs_of(m, order.push(k)) == digs_of(m, order),
{
    assert(order.push(k).drop_last() =~= order);
}

/// The fields of a row without tabs in them are read back by splitting the row at its tabs.
pub proof fn law_rows_read_back(fs: Seq<Seq<char>>)
    requires
        fs.len() > 0,
        forall|i: int, j: int| 0 <= i < fs.len() && 0 <= j < fs[i].len() ==> #[trigger] fs[i][j] != '\t',
    ensures
        pieces(tabbed(fs), Class::Is('\t')) == fs,
    decreases fs.len(),
{
    let f = fs.last();
    assert forall|j: int| 0 <= j < f.len() implies #[trigger] f[j] != '\t' by {
        assert(fs[fs.len() - 1][j] != '\t');
    }
    if fs.len() == 1 {
        lemma_field(Seq::empty(), f);
        assert(Seq::<char>::empty() + f =~= f);
        assert(fs =~= seq![f]);
        assert(pieces(tabbed(fs), Class::Is('\t')) =~= fs);
    } else {
        let d = fs.drop_last();
        assert forall|i: int, j: int| 0 <= i < d.len() && 0 <= j < d[i].len() implies #[trigger] d[i][j]
            != '\t' by {
            assert(fs[i][j] != '\t');
        }
        law_rows_read_back(d);
        let s = tabbed(d) + seq!['\t'];
        assert(s.drop_last() =~= tabbed(d));
        lemma_field(s, f);
        assert(pieces(s, Class::Is('\t')) =~= d.push(Seq::empty()));
        assert(pieces(tabbed(fs), Class::Is('\t')) =~= fs);
    }
}

proof fn lemma_field(s: Seq<char>, f: Seq<char>)
    requires
        forall|j: int| 0 <= j < f.len() ==> #[trigger] f[j] != '\t',
    ensures
        ({
            let p = pieces(s, Class::Is('\t'));
            let q = pieces(s + f, Class::Is('\t'));
            &&& p.len() > 0
            &&& q == p.drop_last().push(p.last() + f)
        }),
    decreases f.len(),
{
    let sep = Class::Is('\t');
    let p = pieces(s, sep);
    if f.len() == 0 {
        assert(s + f =~= s);
        assert(p.last() + f =~= p.last());
        assert(p.len() > 0);
        assert(p.drop_last().push(p.last()) =~= p);
    } else {
        let d = f.drop_last();
        assert forall|j: int| 0 <= j < d.len() implies #[trigger] d[j] != '\t' by {
            assert(d[j] == f[j]);
        }
        lemma_field(s, d);
        assert((s + f).drop_last() =~= s + d);
        assert((s + f).last() == f.last());
        assert(f[f.len() - 1] != '\t');
        assert((p.last() + d).push(f.last()) =~= p.last() + f);
        assert(pieces(s + f, sep) =~= p.drop_last().push(p.last() + f));
    }
}

/// A row shows its fields in order with a tab between each two.
pub proof fn law_tab_before_each_further_field(fs: Seq<Seq<char>>, f: Seq<char>)
    requires
        fs.len() > 0,
    ensures
        tabbed(seq![f]) == f,
        tabbed(fs.push(f)) == tabbed(fs) + seq!['\t'] + f,
{
    assert(fs.push(f).drop_last() =~= fs);
}

/// The marker's flag for an emergency is the number one: an exponent of nought over the bias of
/// 127, and no fraction.
pub proof fn law_emergency_flag_is_one()
    ensures
        EMERGENCY / 0x80_0000 == 127,
        EMERGENCY % 0x80_0000 == 0,
{
}

/// Digs are ordered by their days and, on one day, by their permits.
pub proof fn law_digs_come_by_day_and_permit(ds: Seq<Dig>, r: Seq<usize>, i: int, j: int)
    requires
        is_order(dig_days(ds), dig_permits(ds), r),
        0 <= i < j < r.len(),
    ensures
        ({
            let (a, b) = (ds[r[i] as int], ds[r[j] as int]);
            &&& r.len() == ds.len()
            &&& r[i] != r[j]
            &&& a.day <= b.day
            &&& a.day == b.day ==> !text_lt(b.fields@[0]@, a.fields@[0]@)
        }),
{
    law_order_puts_smaller_first(dig_days(ds), dig_permits(ds), r, i, j);
}

/// Each line is parsed once, in order, into the event that comes of it or into none.
pub proof fn law_each_line_is_parsed<F: Fn(&str) -> Option<Ev>>(
    parse: F,
    ls: Seq<Seq<char>>,
    es: Seq<Option<EvView>>,
    k: int,
)
    requires
        parsed(parse, ls, es),
        0 <= k < ls.len(),
    ensures
        es.len() == ls.len(),
        exists|t: &str, r: Option<Ev>| #[trigger]
            call_ensures(parse, (t,), r) && t@ == ls[k] && r.deep_view() == es[k],
{
    assert(makes(parse, ls[k], es[k]));
}

/// Taking lines in loses no permit, and no event that is later than what lines tell of its
/// permit; a permit comes in only from an event of the lines that counts.
pub proof fn law_taking_in_keeps_what_is_there<F: Fn(&str) -> Option<Ev>>(
    parse: F,
    ls: Seq<Seq<char>>,
    category: Seq<char>,
    promoter: Seq<char>,
    was: Map<Seq<char>, EvView>,
    now: Map<Seq<char>, EvView>,
    k: Seq<char>,
)
    requires
        takes_in(parse, ls, category, promoter, was, now),
    ensures
        was.contains_key(k) ==> now.contains_key(k) && !later(was[k].event_time, now[k].event_time),
        now.contains_key(k) && !was.contains_key(k) ==> exists|es: Seq<Option<EvView>>|
            #[trigger] parsed(parse, ls, es) && counted(es, category, promoter).contains(now[k])
                && now[k].permit_reference_number == Some(k),
{
    let es = choose|es: Seq<Option<EvView>>| #[trigger]
        parsed(parse, ls, es) && now == latest_together(
            was,
            latest_events(counted(es, category, promoter)),
        );
    let m = latest_events(counted(es, category, promoter));
    if was.contains_key(k) {
        lemma_later_self(was[k].event_time);
        if m.contains_key(k) {
            match (was[k].event_time, m[k].event_time) {
                (Some(x), Some(y)) => {
                    lemma_text_total(x, y);
                },
                _ => {},
            }
        }
    }
    if m.contains_key(k) {
        lemma_kept_event(counted(es, category, promoter), k);
    }
}

/// A part of a date that is no number, or that lies beyond the end of the text, counts as
/// nought.
pub proof fn law_missing_parts_count_as_nought(s: Seq<char>)
    requires
        forall|i: int| 0 <= i < s.len() ==> (#[trigger] s[i] as u32) < 0x80,
    ensures
        s.len() < 4 ==> day_of(s) == day_number(0, 0, 0),
        4 <= s.len() < 7 && integer(s.subrange(0, 4), true) is None ==> day_of(s) == day_number(0, 0, 0),
        s.len() >= 10 && integer(s.subrange(0, 4), true) is None && integer(
            s.subrange(5, 7),
            true,
        ) is None && integer(s.subrange(8, 10), true) is None ==> day_of(s) == day_number(0, 0, 0),
{
    law_ascii_range(s, 0, 4);
    law_ascii_range(s, 5, 7);
    law_ascii_range(s, 8, 10);
}

} // verus!
