//! The session: authoritative interactive state and its transition function.
//!
//! A session owns the enabled candidate set, the query text, the ranked match
//! list, the pagination window and the cursor, and consumes one input event at
//! a time. Its behaviour is stated against a ghost [`Model`] and a pure
//! transition function [`step`].

use vstd::prelude::*;
use vstd::arithmetic::div_mod::{lemma_fundamental_div_mod, lemma_mod_division_less_than_divisor,
    lemma_div_is_ordered, lemma_div_multiples_vanish, lemma_div_pos_is_pos};
use vstd::arithmetic::mul::lemma_mul_inequality;
use crate::Strategy;
use crate::matcher::score_spec;

verus! {

broadcast use vstd::std_specs::vec::group_vec_axioms;

/// One selectable record: a display name, an opaque payload, and tags.
/// Only records with `enabled == true` enter a session's working set.
pub struct Candidate {
    pub name: String,
    pub payload: String,
    pub tags: Vec<String>,
    pub enabled: bool,
}

/// The mathematical shadow of a [`Candidate`].
#[verifier::ext_equal]
pub ghost struct CandView {
    pub name: Seq<char>,
    pub payload: Seq<char>,
    pub tags: Seq<Seq<char>>,
}

impl View for Candidate {
    type V = CandView;

    open spec fn view(&self) -> CandView {
        CandView { name: self.name@, payload: self.payload@, tags: self.tags.deep_view() }
    }
}

/// A candidate that matched the query: its position in the working set and
/// its rank. Higher ranks sort first; ties keep the original order.
#[derive(Clone, Copy, PartialEq, Eq, Structural, Debug)]
pub struct RankedMatch {
    pub idx: usize,
    pub rank: i64,
}

/// One discrete input event.
#[derive(Clone, Copy, PartialEq, Eq, Structural, Debug)]
pub enum Event {
    TypeChar(char),
    Backspace,
    MoveUp,
    MoveDown,
    PageUp,
    PageDown,
    Commit,
    Cancel,
}

/// The terminal result of a session. It leaves `Pending` at most once.
#[derive(Clone, Copy, PartialEq, Eq, Structural, Debug)]
pub enum Outcome {
    Pending,
    Committed(usize),
    Cancelled,
}

/// The ghost state of a session: what every contract speaks of.
#[verifier::ext_equal]
pub ghost struct Model {
    pub cands: Seq<CandView>,
    pub strategy: Strategy,
    pub query: Seq<char>,
    pub matches: Seq<RankedMatch>,
    pub page: int,
    pub page_size: int,
    pub cursor: int,
    pub outcome: Outcome,
}

/// The names of a candidate sequence, in order.
pub open spec fn names_of(cands: Seq<CandView>) -> Seq<Seq<char>> {
    cands.map(|i: int, c: CandView| c.name)
}

/// The views of a candidate sequence, in order.
pub open spec fn views_of(s: Seq<Candidate>) -> Seq<CandView> {
    s.map(|i: int, c: Candidate| c@)
}

/// The views of the enabled candidates, in their original order.
pub open spec fn enabled_views(s: Seq<Candidate>) -> Seq<CandView>
    decreases s.len(),
{
    if s.len() == 0 {
        Seq::empty()
    } else {
        let rest = enabled_views(s.drop_last());
        if s.last().enabled {
            rest.push(s.last()@)
        } else {
            rest
        }
    }
}

/// Every name scored under the strategy, kept in original order; names that
/// score `None` are dropped.
pub open spec fn scored_of(names: Seq<Seq<char>>, strategy: Strategy, q: Seq<char>) -> Seq<
    RankedMatch,
>
    decreases names.len(),
{
    if names.len() == 0 {
        Seq::empty()
    } else {
        let rest = scored_of(names.drop_last(), strategy, q);
        match score_spec(strategy, q, names.last()) {
            Some(r) => rest.push(RankedMatch { idx: (names.len() - 1) as usize, rank: r }),
            None => rest,
        }
    }
}

/// Where a rank lands in a descending list: after every element that ranks at
/// least as high, so that equal ranks keep their insertion order.
pub open spec fn insert_pos(s: Seq<RankedMatch>, r: i64) -> int
    decreases s.len(),
{
    if s.len() == 0 {
        0
    } else if s[0].rank >= r {
        1 + insert_pos(s.drop_first(), r)
    } else {
        0
    }
}

/// One stable insertion into a descending list.
pub open spec fn insert_desc(s: Seq<RankedMatch>, m: RankedMatch) -> Seq<RankedMatch> {
    s.insert(insert_pos(s, m.rank), m)
}

/// Stable insertion sort by descending rank.
pub open spec fn sort_desc(s: Seq<RankedMatch>) -> Seq<RankedMatch>
    decreases s.len(),
{
    if s.len() == 0 {
        Seq::empty()
    } else {
        insert_desc(sort_desc(s.drop_last()), s.last())
    }
}

/// The match list a query owes: every scoring name, sorted by descending
/// rank, ties by original order.
pub open spec fn matches_spec(names: Seq<Seq<char>>, strategy: Strategy, q: Seq<char>) -> Seq<
    RankedMatch,
> {
    sort_desc(scored_of(names, strategy, q))
}

/// Sorted by descending rank; equal ranks keep ascending original positions.
pub open spec fn sorted_ranked(s: Seq<RankedMatch>) -> bool {
    forall|i: int, j: int|
        0 <= i < j < s.len() ==> ((#[trigger] s[i]).rank > (#[trigger] s[j]).rank || (s[i].rank
            == s[j].rank && s[i].idx < s[j].idx))
}

/// `m` is an element of `s`.
pub open spec fn in_seq(m: RankedMatch, s: Seq<RankedMatch>) -> bool {
    exists|j: int| 0 <= j < s.len() && s[j] == m
}

/// The last page index: pages partition the matches into windows of
/// `page_size`.
pub open spec fn last_page_of(len: int, psz: int) -> int {
    if len <= 0 {
        0
    } else {
        (len - 1) / psz
    }
}

/// How many pages the matches fill.
pub open spec fn num_pages_of(len: int, psz: int) -> int {
    if len <= 0 {
        0
    } else {
        (len - 1) / psz + 1
    }
}

/// The global index of the first visible row.
pub open spec fn start_of(m: Model) -> int {
    m.page * m.page_size
}

/// How many rows the current page shows.
pub open spec fn visible_len_of(m: Model) -> int {
    let rem = m.matches.len() - start_of(m);
    if rem <= m.page_size {
        rem
    } else {
        m.page_size
    }
}

/// The invariants every session maintains after every transition.
pub open spec fn model_wf(m: Model) -> bool {
    &&& m.page_size >= 1
    &&& m.cands.len() <= usize::MAX as nat
    &&& m.matches == matches_spec(names_of(m.cands), m.strategy, m.query)
    &&& forall|k: int|
        0 <= k < m.matches.len() ==> (#[trigger] m.matches[k]).idx < m.cands.len()
    &&& 0 <= m.page <= last_page_of(m.matches.len() as int, m.page_size)
    &&& if m.matches.len() == 0 {
        m.cursor == 0
    } else {
        0 <= m.cursor < visible_len_of(m)
    }
    &&& match m.outcome {
        Outcome::Committed(i) => i < m.cands.len(),
        _ => true,
    }
}

/// A query change: recompute the matches, reset page and cursor.
pub open spec fn requery(m: Model, q: Seq<char>) -> Model {
    Model {
        query: q,
        matches: matches_spec(names_of(m.cands), m.strategy, q),
        page: 0,
        cursor: 0,
        ..m
    }
}

/// The transition function: what one event does to a session's state.
/// Once the outcome is no longer `Pending`, every event is ignored.
pub open spec fn step(m: Model, e: Event) -> Model {
    if !(m.outcome is Pending) {
        m
    } else {
        match e {
            Event::TypeChar(c) => requery(m, m.query.push(c)),
            Event::Backspace => requery(
                m,
                if m.query.len() == 0 {
                    m.query
                } else {
                    m.query.drop_last()
                },
            ),
            Event::MoveUp => if m.cursor > 0 {
                Model { cursor: m.cursor - 1, ..m }
            } else {
                m
            },
            Event::MoveDown => if m.cursor + 1 < visible_len_of(m) {
                Model { cursor: m.cursor + 1, ..m }
            } else {
                m
            },
            Event::PageUp => if m.page > 0 {
                Model { page: m.page - 1, cursor: 0, ..m }
            } else {
                m
            },
            Event::PageDown => if m.page < last_page_of(m.matches.len() as int, m.page_size) {
                Model { page: m.page + 1, cursor: 0, ..m }
            } else {
                m
            },
            Event::Commit => if m.matches.len() > 0 {
                Model {
                    outcome: Outcome::Committed(m.matches[start_of(m) + m.cursor].idx),
                    ..m
                }
            } else {
                m
            },
            Event::Cancel => Model { outcome: Outcome::Cancelled, ..m },
        }
    }
}

/// A whole run: `es` applied in order from `m`.
pub open spec fn run(m: Model, es: Seq<Event>) -> Model
    decreases es.len(),
{
    if es.len() == 0 {
        m
    } else {
        run(step(m, es[0]), es.drop_first())
    }
}

proof fn lemma_mul_div_le(a: int, b: int)
    requires
        b >= 1,
    ensures
        b * (a / b) <= a,
        a < b * (a / b) + b,
{
    lemma_fundamental_div_mod(a, b);
    lemma_mod_division_less_than_divisor(a, b);
}

proof fn lemma_page_in_range(page: int, psz: int, len: int)
    requires
        psz >= 1,
        len >= 1,
        0 <= page <= (len - 1) / psz,
    ensures
        page * psz <= len - 1,
{
    lemma_mul_inequality(page, (len - 1) / psz, psz);
    lemma_mul_div_le(len - 1, psz);
}

proof fn lemma_page_lt_iff(page: int, psz: int, len: int)
    requires
        psz >= 1,
        len >= 1,
        0 <= page,
    ensures
        (page < (len - 1) / psz) <==> (page * psz + psz <= len - 1),
{
    if page < (len - 1) / psz {
        lemma_page_in_range(page + 1, psz, len);
        assert((page + 1) * psz == page * psz + psz) by (nonlinear_arith);
    }
    if page * psz + psz <= len - 1 {
        assert((page + 1) * psz == page * psz + psz) by (nonlinear_arith);
        lemma_div_is_ordered((page + 1) * psz, len - 1, psz);
        lemma_div_multiples_vanish(page + 1, psz);
        assert((page + 1) * psz == psz * (page + 1)) by (nonlinear_arith);
    }
}

proof fn lemma_insert_pos_props(s: Seq<RankedMatch>, r: i64)
    ensures
        0 <= insert_pos(s, r) <= s.len(),
        forall|k: int| 0 <= k < insert_pos(s, r) ==> (#[trigger] s[k]).rank >= r,
        insert_pos(s, r) < s.len() ==> s[insert_pos(s, r)].rank < r,
    decreases s.len(),
{
    if s.len() > 0 && s[0].rank >= r {
        lemma_insert_pos_props(s.drop_first(), r);
        assert forall|k: int| 0 <= k < insert_pos(s, r) implies (#[trigger] s[k]).rank >= r by {
            if k > 0 {
                assert(s.drop_first()[k - 1] == s[k]);
            }
        }
        if insert_pos(s, r) < s.len() {
            assert(s.drop_first()[insert_pos(s.drop_first(), r)] == s[insert_pos(s, r)]);
        }
    }
}

proof fn lemma_insert_desc_props(s: Seq<RankedMatch>, m: RankedMatch)
    requires
        sorted_ranked(s),
        forall|k: int| 0 <= k < s.len() ==> (#[trigger] s[k]).idx < m.idx,
    ensures
        insert_desc(s, m).len() == s.len() + 1,
        sorted_ranked(insert_desc(s, m)),
        forall|k: int|
            0 <= k < insert_desc(s, m).len() ==> (#[trigger] insert_desc(s, m)[k] == m || in_seq(
                insert_desc(s, m)[k],
                s,
            )),
{
    lemma_insert_pos_props(s, m.rank);
    let pos = insert_pos(s, m.rank);
    s.insert_ensures(pos, m);
    let t = insert_desc(s, m);
    assert forall|i: int, j: int| 0 <= i < j < t.len() implies ((#[trigger] t[i]).rank
        > (#[trigger] t[j]).rank || (t[i].rank == t[j].rank && t[i].idx < t[j].idx)) by {
        if i < pos && j < pos {
            assert(t[i] == s[i] && t[j] == s[j]);
        } else if i < pos && j == pos {
            assert(t[i] == s[i] && t[j] == m);
        } else if i < pos && j > pos {
            assert(t[i] == s[i] && t[j] == s[j - 1]);
        } else if i == pos && j > pos {
            assert(t[i] == m && t[j] == s[j - 1]);
            assert(s[pos] == t[pos + 1]);
        } else if i > pos {
            assert(t[i] == s[i - 1] && t[j] == s[j - 1]);
        }
    }
    assert forall|k: int| 0 <= k < t.len() implies (#[trigger] t[k] == m || in_seq(t[k], s)) by {
        if k < pos {
            assert(t[k] == s[k]);
        } else if k > pos {
            assert(t[k] == s[k - 1]);
        }
    }
}

proof fn lemma_sort_desc_props(s: Seq<RankedMatch>)
    requires
        forall|i: int, j: int| 0 <= i < j < s.len() ==> (#[trigger] s[i]).idx < (#[trigger] s[j]).idx,
    ensures
        sort_desc(s).len() == s.len(),
        sorted_ranked(sort_desc(s)),
        forall|k: int| 0 <= k < sort_desc(s).len() ==> in_seq(#[trigger] sort_desc(s)[k], s),
    decreases s.len(),
{
    if s.len() > 0 {
        let prefix = s.drop_last();
        let last = s.last();
        lemma_sort_desc_props(prefix);
        let sp = sort_desc(prefix);
        assert forall|k: int| 0 <= k < sp.len() implies (#[trigger] sp[k]).idx < last.idx by {
            assert(in_seq(sp[k], prefix));
            let j = choose|j: int| 0 <= j < prefix.len() && prefix[j] == sp[k];
            assert(prefix[j] == s[j]);
            assert(s[j].idx < s[s.len() - 1].idx);
        }
        lemma_insert_desc_props(sp, last);
        assert forall|k: int| 0 <= k < sort_desc(s).len() implies in_seq(
            #[trigger] sort_desc(s)[k],
            s,
        ) by {
            if sort_desc(s)[k] == last {
                assert(s[s.len() - 1] == last);
            } else {
                assert(in_seq(sort_desc(s)[k], sp));
                let j = choose|j: int| 0 <= j < sp.len() && sp[j] == sort_desc(s)[k];
                assert(in_seq(sp[j], prefix));
                let t = choose|t: int| 0 <= t < prefix.len() && prefix[t] == sp[j];
                assert(prefix[t] == s[t]);
            }
        }
    }
}

proof fn lemma_scored_of_props(names: Seq<Seq<char>>, strategy: Strategy, q: Seq<char>)
    requires
        names.len() <= usize::MAX as nat,
    ensures
        scored_of(names, strategy, q).len() <= names.len(),
        forall|i: int, j: int|
            0 <= i < j < scored_of(names, strategy, q).len() ==> (#[trigger] scored_of(
                names,
                strategy,
                q,
            )[i]).idx < (#[trigger] scored_of(names, strategy, q)[j]).idx,
        forall|i: int|
            0 <= i < scored_of(names, strategy, q).len() ==> (#[trigger] scored_of(
                names,
                strategy,
                q,
            )[i]).idx < names.len(),
    decreases names.len(),
{
    if names.len() > 0 {
        lemma_scored_of_props(names.drop_last(), strategy, q);
    }
}

/// Invariant of the match list: a well-formed session's matches are sorted by
/// descending rank, ties by original order, and every entry points into the
/// candidate set.
pub proof fn lemma_wf_matches_sorted(m: Model)
    requires
        model_wf(m),
    ensures
        sorted_ranked(m.matches),
        m.matches.len() <= m.cands.len(),
{
    let names = names_of(m.cands);
    lemma_scored_of_props(names, m.strategy, m.query);
    lemma_sort_desc_props(scored_of(names, m.strategy, m.query));
}

proof fn lemma_matches_spec_props(names: Seq<Seq<char>>, strategy: Strategy, q: Seq<char>)
    requires
        names.len() <= usize::MAX as nat,
    ensures
        matches_spec(names, strategy, q).len() <= names.len(),
        sorted_ranked(matches_spec(names, strategy, q)),
        forall|k: int|
            0 <= k < matches_spec(names, strategy, q).len() ==> (#[trigger] matches_spec(
                names,
                strategy,
                q,
            )[k]).idx < names.len(),
{
    let sc = scored_of(names, strategy, q);
    lemma_scored_of_props(names, strategy, q);
    lemma_sort_desc_props(sc);
    assert forall|k: int| 0 <= k < matches_spec(names, strategy, q).len() implies (
    #[trigger] matches_spec(names, strategy, q)[k]).idx < names.len() by {
        assert(in_seq(matches_spec(names, strategy, q)[k], sc));
        let j = choose|j: int| 0 <= j < sc.len() && sc[j] == matches_spec(names, strategy, q)[k];
        assert(sc[j].idx < names.len());
    }
}

/// Invariant preservation: one step from a well-formed state lands in a
/// well-formed state.
pub proof fn lemma_step_preserves_wf(m: Model, e: Event)
    requires
        model_wf(m),
    ensures
        model_wf(step(m, e)),
{
    if m.outcome is Pending {
        let len = m.matches.len() as int;
        let psz = m.page_size;
        match e {
            Event::TypeChar(c) => {
                lemma_requery_wf(m, m.query.push(c));
            },
            Event::Backspace => {
                let q = if m.query.len() == 0 {
                    m.query
                } else {
                    m.query.drop_last()
                };
                lemma_requery_wf(m, q);
            },
            Event::MoveUp => {},
            Event::MoveDown => {},
            Event::PageUp => {
                if m.page > 0 {
                    lemma_page_in_range(m.page - 1, psz, len);
                }
            },
            Event::PageDown => {
                if m.page < last_page_of(len, psz) {
                    lemma_page_in_range(m.page + 1, psz, len);
                }
            },
            Event::Commit => {
                if len > 0 {
                    lemma_page_in_range(m.page, psz, len);
                }
            },
            Event::Cancel => {},
        }
    }
}

proof fn lemma_requery_wf(m: Model, q: Seq<char>)
    requires
        model_wf(m),
    ensures
        model_wf(requery(m, q)),
{
    let names = names_of(m.cands);
    lemma_matches_spec_props(names, m.strategy, q);
    let m2 = requery(m, q);
    if m2.matches.len() > 0 {
        assert(visible_len_of(m2) >= 1);
    }
}

/// Invariant preservation over a whole run: the invariants hold after every
/// event of any finite event sequence applied from a well-formed state.
pub proof fn lemma_run_preserves_wf(m: Model, es: Seq<Event>)
    requires
        model_wf(m),
    ensures
        model_wf(run(m, es)),
    decreases es.len(),
{
    if es.len() > 0 {
        lemma_step_preserves_wf(m, es[0]);
        lemma_run_preserves_wf(step(m, es[0]), es.drop_first());
    }
}

/// Query monotonicity of reset: every event that can change the query leaves
/// the session at page 0 with the cursor at 0.
pub proof fn lemma_query_reset(m: Model, e: Event)
    requires
        m.outcome is Pending,
        e is TypeChar || e is Backspace,
    ensures
        step(m, e).page == 0,
        step(m, e).cursor == 0,
{
}

/// Idempotence of boundary navigation: `MoveUp` at the top of a page and
/// `PageUp` at the first page change nothing at all.
pub proof fn lemma_boundary_noop(m: Model)
    ensures
        m.cursor == 0 ==> step(m, Event::MoveUp) == m,
        m.page == 0 ==> step(m, Event::PageUp) == m,
{
}

/// One page of the match list.
pub open spec fn page_slice(s: Seq<RankedMatch>, psz: int, p: int) -> Seq<RankedMatch> {
    let start = p * psz;
    let rem = s.len() - start;
    let vis = if rem <= psz {
        rem
    } else {
        psz
    };
    s.subrange(start, start + vis)
}

/// The first `p` pages, concatenated in order.
pub open spec fn pages_concat(s: Seq<RankedMatch>, psz: int, p: int) -> Seq<RankedMatch>
    decreases p,
{
    if p <= 0 {
        Seq::empty()
    } else {
        pages_concat(s, psz, p - 1) + page_slice(s, psz, p - 1)
    }
}

proof fn lemma_pages_concat_prefix(s: Seq<RankedMatch>, psz: int, k: int)
    requires
        psz >= 1,
        0 <= k <= num_pages_of(s.len() as int, psz),
    ensures
        pages_concat(s, psz, k) == s.subrange(
            0,
            if k * psz <= s.len() {
                k * psz
            } else {
                s.len() as int
            },
        ),
    decreases k,
{
    let len = s.len() as int;
    if k == 0 {
        assert(pages_concat(s, psz, 0) =~= s.subrange(0, 0));
    } else {
        lemma_pages_concat_prefix(s, psz, k - 1);
        lemma_page_in_range(k - 1, psz, len);
        assert((k - 1) * psz == k * psz - psz) by (nonlinear_arith);
        let start = (k - 1) * psz;
        let rem = len - start;
        let vis = if rem <= psz {
            rem
        } else {
            psz
        };
        let stop = if k * psz <= len {
            k * psz
        } else {
            len
        };
        assert(start + vis == stop);
        assert(pages_concat(s, psz, k - 1) == s.subrange(0, start));
        assert(s.subrange(0, start) + s.subrange(start, stop) =~= s.subrange(0, stop));
    }
}

/// Pagination completeness: the pages of the match list, concatenated across
/// every page index, are exactly the match list — in order, nothing repeated,
/// nothing left out.
pub proof fn lemma_pagination_complete(s: Seq<RankedMatch>, psz: int)
    requires
        psz >= 1,
    ensures
        pages_concat(s, psz, num_pages_of(s.len() as int, psz)) == s,
{
    let len = s.len() as int;
    let np = num_pages_of(len, psz);
    lemma_pages_concat_prefix(s, psz, np);
    if len > 0 {
        lemma_mul_div_le(len - 1, psz);
        let q = (len - 1) / psz;
        assert((q + 1) * psz == q * psz + psz) by (nonlinear_arith);
        assert(q * psz == psz * q) by (nonlinear_arith);
        assert(np * psz >= len);
    }
    assert(s.subrange(0, len) =~= s);
}

proof fn lemma_insert_pos_all_ge(s: Seq<RankedMatch>, r: i64)
    requires
        forall|k: int| 0 <= k < s.len() ==> (#[trigger] s[k]).rank >= r,
    ensures
        insert_pos(s, r) == s.len(),
    decreases s.len(),
{
    if s.len() > 0 {
        assert forall|k: int| 0 <= k < s.drop_first().len() implies (#[trigger] s.drop_first()[k]).rank
            >= r by {
            assert(s.drop_first()[k] == s[k + 1]);
        }
        lemma_insert_pos_all_ge(s.drop_first(), r);
    }
}

proof fn lemma_sort_desc_identity_on_equal_ranks(s: Seq<RankedMatch>)
    requires
        forall|i: int, j: int|
            0 <= i < s.len() && 0 <= j < s.len() ==> (#[trigger] s[i]).rank == (#[trigger] s[j]).rank,
    ensures
        sort_desc(s) == s,
    decreases s.len(),
{
    if s.len() > 0 {
        let prefix = s.drop_last();
        lemma_sort_desc_identity_on_equal_ranks(prefix);
        assert forall|k: int| 0 <= k < prefix.len() implies (#[trigger] prefix[k]).rank
            >= s.last().rank by {
            assert(prefix[k] == s[k]);
        }
        lemma_insert_pos_all_ge(prefix, s.last().rank);
        assert(prefix.subrange(0, prefix.len() as int) =~= prefix);
        assert(prefix.subrange(prefix.len() as int, prefix.len() as int) =~= Seq::<
            RankedMatch,
        >::empty());
        assert(insert_desc(prefix, s.last()) =~= prefix.push(s.last()));
        assert(prefix.push(s.last()) =~= s);
    }
}

proof fn lemma_scored_of_empty_literal(names: Seq<Seq<char>>)
    ensures
        scored_of(names, Strategy::Literal, Seq::empty()).len() == names.len(),
        forall|k: int|
            0 <= k < names.len() ==> (#[trigger] scored_of(names, Strategy::Literal, Seq::empty())[k])
                == (RankedMatch { idx: k as usize, rank: 0i64 }),
    decreases names.len(),
{
    if names.len() > 0 {
        lemma_scored_of_empty_literal(names.drop_last());
        let q = Seq::<char>::empty();
        assert(!crate::matcher::has_meta(q));
        assert(crate::matcher::folded_match_at(q, names.last(), 0));
        assert(score_spec(Strategy::Literal, q, names.last()) == Some(0i64));
    }
}

/// With an empty query, the literal strategy matches every candidate at one
/// shared rank, so the match list is the whole candidate set in its original
/// order: no ranking reorders it.
pub proof fn lemma_empty_query_literal_order(names: Seq<Seq<char>>)
    requires
        names.len() <= usize::MAX as nat,
    ensures
        matches_spec(names, Strategy::Literal, Seq::empty()).len() == names.len(),
        forall|k: int|
            0 <= k < names.len() ==> (#[trigger] matches_spec(
                names,
                Strategy::Literal,
                Seq::empty(),
            )[k]).idx == k,
{
    let sc = scored_of(names, Strategy::Literal, Seq::empty());
    lemma_scored_of_empty_literal(names);
    assert forall|i: int, j: int| 0 <= i < sc.len() && 0 <= j < sc.len() implies (
    #[trigger] sc[i]).rank == (#[trigger] sc[j]).rank by {
        assert(sc[i] == RankedMatch { idx: i as usize, rank: 0i64 });
        assert(sc[j] == RankedMatch { idx: j as usize, rank: 0i64 });
    }
    lemma_sort_desc_identity_on_equal_ranks(sc);
}

fn clone_strings(v: &Vec<String>) -> (r: Vec<String>)
    ensures
        r.deep_view() == v.deep_view(),
{
    let mut out: Vec<String> = Vec::new();
    let mut i: usize = 0;
    while i < v.len()
        invariant
            i <= v@.len(),
            out@.len() == i,
            forall|k: int| 0 <= k < i ==> (#[trigger] out@[k])@ == v@[k]@,
        decreases v@.len() - i,
    {
        out.push(v[i].clone());
        i += 1;
    }
    proof {
        assert(out.deep_view() =~= v.deep_view());
    }
    out
}

fn clone_candidate(c: &Candidate) -> (r: Candidate)
    ensures
        r@ == c@,
        r.enabled == c.enabled,
{
    let r = Candidate {
        name: c.name.clone(),
        payload: c.payload.clone(),
        tags: clone_strings(&c.tags),
        enabled: c.enabled,
    };
    proof {
        assert(r@ =~= c@);
    }
    r
}

fn find_insert_pos(out: &Vec<RankedMatch>, r: i64) -> (p: usize)
    ensures
        p as int == insert_pos(out@, r),
{
    let mut j: usize = 0;
    while j < out.len()
        invariant
            j <= out@.len(),
            forall|k: int| 0 <= k < j ==> (#[trigger] out@[k]).rank >= r,
        decreases out@.len() - j,
    {
        if out[j].rank < r {
            proof {
                lemma_insert_pos_props(out@, r);
            }
            return j;
        }
        j += 1;
    }
    proof {
        lemma_insert_pos_props(out@, r);
    }
    j
}

fn compute_matches(candidates: &Vec<Candidate>, strategy: Strategy, query: &Vec<char>) -> (r: Vec<
    RankedMatch,
>)
    ensures
        r@ == matches_spec(names_of(views_of(candidates@)), strategy, query@),
{
    let ghost names = names_of(views_of(candidates@));
    let mut out: Vec<RankedMatch> = Vec::new();
    let mut i: usize = 0;
    while i < candidates.len()
        invariant
            i <= candidates@.len(),
            names == names_of(views_of(candidates@)),
            names.len() == candidates@.len(),
            out@ == sort_desc(scored_of(names.take(i as int), strategy, query@)),
        decreases candidates@.len() - i,
    {
        let ghost prev = scored_of(names.take(i as int), strategy, query@);
        let s = crate::matcher::score(strategy, query, candidates[i].name.as_str());
        proof {
            assert(names.take(i + 1).drop_last() =~= names.take(i as int));
            assert(names[i as int] == candidates@[i as int]@.name);
        }
        match s {
            Some(rank) => {
                let m = RankedMatch { idx: i, rank };
                let pos = find_insert_pos(&out, rank);
                proof {
                    lemma_insert_pos_props(out@, rank);
                    assert(scored_of(names.take(i + 1), strategy, query@) == prev.push(m));
                }
                out.insert(pos, m);
                proof {
                    assert(prev.push(m).drop_last() =~= prev);
                    assert(sort_desc(prev.push(m)) == insert_desc(sort_desc(prev), m));
                }
            },
            None => {
                proof {
                    assert(scored_of(names.take(i + 1), strategy, query@) == prev);
                }
            },
        }
        i += 1;
    }
    proof {
        assert(names.take(candidates@.len() as int) =~= names);
    }
    out
}

/// One row the renderer may draw: a candidate's name and whether the cursor
/// stands on it.
pub struct RenderRow {
    pub name: String,
    pub selected: bool,
}

/// The read-only projection of a session a renderer consumes: the sole state
/// it may read.
pub struct RenderPlan {
    pub query: Vec<char>,
    pub rows: Vec<RenderRow>,
    pub has_prev: bool,
    pub has_next: bool,
}

/// The session: the authoritative interactive state. Construct it once from
/// the candidate set, feed it events, and read its render plan each tick.
pub struct Session {
    candidates: Vec<Candidate>,
    strategy: Strategy,
    query: Vec<char>,
    matches: Vec<RankedMatch>,
    page: usize,
    page_size: usize,
    cursor: usize,
    outcome: Outcome,
}

impl View for Session {
    type V = Model;

    closed spec fn view(&self) -> Model {
        Model {
            cands: views_of(self.candidates@),
            strategy: self.strategy,
            query: self.query@,
            matches: self.matches@,
            page: self.page as int,
            page_size: self.page_size as int,
            cursor: self.cursor as int,
            outcome: self.outcome,
        }
    }
}

impl Session {
    /// The session's invariants: its model is well-formed.
    pub open spec fn wf(&self) -> bool {
        model_wf(self@)
    }

    /// Build a session: keep exactly the enabled candidates, in their
    /// original order, with the empty query's matches already computed.
    pub fn new(candidates: &Vec<Candidate>, page_size: usize, strategy: Strategy) -> (s: Session)
        requires
            page_size >= 1,
        ensures
            s@.cands == enabled_views(candidates@),
            s@.strategy == strategy,
            s@.query == Seq::<char>::empty(),
            s@.page == 0,
            s@.cursor == 0,
            s@.page_size == page_size as int,
            s@.outcome == Outcome::Pending,
            s.wf(),
    {
        let mut kept: Vec<Candidate> = Vec::new();
        let mut i: usize = 0;
        while i < candidates.len()
            invariant
                i <= candidates@.len(),
                views_of(kept@) == enabled_views(candidates@.take(i as int)),
            decreases candidates@.len() - i,
        {
            let ghost prev = kept@;
            proof {
                assert(candidates@.take(i + 1).drop_last() =~= candidates@.take(i as int));
            }
            if candidates[i].enabled {
                let c = clone_candidate(&candidates[i]);
                kept.push(c);
                proof {
                    assert(views_of(prev.push(c)) =~= views_of(prev).push(c@));
                }
            }
            i += 1;
        }
        proof {
            assert(candidates@.take(candidates@.len() as int) =~= candidates@);
        }
        let kept_len = kept.len();
        proof {
            assert(kept@.len() == kept_len);
        }
        let empty_q: Vec<char> = Vec::new();
        let matches = compute_matches(&kept, strategy, &empty_q);
        let s = Session {
            candidates: kept,
            strategy,
            query: empty_q,
            matches,
            page: 0,
            page_size,
            cursor: 0,
            outcome: Outcome::Pending,
        };
        proof {
            lemma_matches_spec_props(names_of(views_of(s.candidates@)), strategy, s.query@);
            let mm = s@;
            assert(mm.page * mm.page_size == 0) by (nonlinear_arith)
                requires
                    mm.page == 0,
            ;
            if mm.matches.len() > 0 {
                lemma_div_pos_is_pos(mm.matches.len() as int - 1, mm.page_size);
            }
        }
        s
    }

    fn page_start(&self) -> (r: usize)
        requires
            self.wf(),
        ensures
            r as int == start_of(self@),
            start_of(self@) <= self@.matches.len(),
    {
        let total = self.matches.len();
        proof {
            let len = self@.matches.len() as int;
            assert(len == total);
            if len > 0 {
                lemma_page_in_range(self@.page, self@.page_size, len);
            } else {
                assert(self@.page == 0);
                assert(self@.page * self@.page_size == 0) by (nonlinear_arith)
                    requires
                        self@.page == 0,
                ;
            }
        }
        self.page * self.page_size
    }

    fn visible_len(&self) -> (r: usize)
        requires
            self.wf(),
        ensures
            r as int == visible_len_of(self@),
    {
        let start = self.page_start();
        let rem = self.matches.len() - start;
        if rem <= self.page_size {
            rem
        } else {
            self.page_size
        }
    }

    fn recompute(&mut self)
        ensures
            final(self).candidates == old(self).candidates,
            final(self).strategy == old(self).strategy,
            final(self).query == old(self).query,
            final(self).page_size == old(self).page_size,
            final(self).outcome == old(self).outcome,
            final(self).matches@ == matches_spec(
                names_of(views_of(old(self).candidates@)),
                old(self).strategy,
                old(self).query@,
            ),
            final(self).page == 0,
            final(self).cursor == 0,
    {
        let ms = compute_matches(&self.candidates, self.strategy, &self.query);
        self.matches = ms;
        self.page = 0;
        self.cursor = 0;
    }

    /// Apply one input event: the complete, atomic state transition.
    /// The new state is exactly `step` of the old one, and the invariants
    /// are preserved.
    pub fn apply(&mut self, event: Event)
        requires
            old(self).wf(),
        ensures
            final(self)@ == step(old(self)@, event),
            final(self).wf(),
    {
        proof {
            lemma_step_preserves_wf(old(self)@, event);
        }
        let pending = match self.outcome {
            Outcome::Pending => true,
            _ => false,
        };
        if !pending {
            return ;
        }
        match event {
            Event::TypeChar(c) => {
                self.query.push(c);
                self.recompute();
                proof {
                    assert(self@ =~= step(old(self)@, event));
                }
            },
            Event::Backspace => {
                if self.query.len() > 0 {
                    let _ = self.query.pop();
                    proof {
                        assert(self.query@ =~= old(self).query@.drop_last());
                    }
                }
                self.recompute();
                proof {
                    assert(self@ =~= step(old(self)@, event));
                }
            },
            Event::MoveUp => {
                if self.cursor > 0 {
                    self.cursor = self.cursor - 1;
                }
                proof {
                    assert(self@ =~= step(old(self)@, event));
                }
            },
            Event::MoveDown => {
                let vis = self.visible_len();
                if self.cursor + 1 < vis {
                    self.cursor = self.cursor + 1;
                }
                proof {
                    assert(self@ =~= step(old(self)@, event));
                }
            },
            Event::PageUp => {
                if self.page > 0 {
                    self.page = self.page - 1;
                    self.cursor = 0;
                }
                proof {
                    assert(self@ =~= step(old(self)@, event));
                }
            },
            Event::PageDown => {
                let len = self.matches.len();
                if len > 0 {
                    let lp = (len - 1) / self.page_size;
                    if self.page < lp {
                        self.page = self.page + 1;
                        self.cursor = 0;
                    }
                }
                proof {
                    assert(self@ =~= step(old(self)@, event));
                }
            },
            Event::Commit => {
                if self.matches.len() > 0 {
                    let start = self.page_start();
                    let gi = start + self.cursor;
                    let idx = self.matches[gi].idx;
                    self.outcome = Outcome::Committed(idx);
                }
                proof {
                    assert(self@ =~= step(old(self)@, event));
                }
            },
            Event::Cancel => {
                self.outcome = Outcome::Cancelled;
                proof {
                    assert(self@ =~= step(old(self)@, event));
                }
            },
        }
    }

    /// The render plan: exactly the current page's slice of the matches,
    /// the cursor's row marked, and whether pages exist on either side.
    pub fn render_plan(&self) -> (r: RenderPlan)
        requires
            self.wf(),
        ensures
            r.query@ == self@.query,
            r.rows@.len() == visible_len_of(self@),
            forall|i: int|
                0 <= i < r.rows@.len() ==> (#[trigger] r.rows@[i]).name@ == self@.cands[self@.matches[start_of(self@) + i].idx as int].name,
            forall|i: int|
                0 <= i < r.rows@.len() ==> (#[trigger] r.rows@[i]).selected == (i == self@.cursor),
            r.has_prev == (self@.page > 0),
            r.has_next == (self@.page < last_page_of(self@.matches.len() as int, self@.page_size)),
    {
        let start = self.page_start();
        let vis = self.visible_len();
        let total = self.matches.len();
        let mut rows: Vec<RenderRow> = Vec::new();
        let mut i: usize = 0;
        while i < vis
            invariant
                self.wf(),
                i <= vis,
                vis as int == visible_len_of(self@),
                start as int == start_of(self@),
                total == self@.matches.len(),
                start + vis <= total,
                rows@.len() == i,
                forall|k: int|
                    0 <= k < i ==> (#[trigger] rows@[k]).name@ == self@.cands[self@.matches[start as int + k].idx as int].name,
                forall|k: int| 0 <= k < i ==> (#[trigger] rows@[k]).selected == (k == self@.cursor),
            decreases vis - i,
        {
            let m_idx = self.matches[start + i].idx;
            let name = self.candidates[m_idx].name.clone();
            rows.push(RenderRow { name, selected: i == self.cursor });
            i += 1;
        }
        let mut q: Vec<char> = Vec::new();
        let mut j: usize = 0;
        while j < self.query.len()
            invariant
                j <= self.query@.len(),
                q@ == self.query@.subrange(0, j as int),
            decreases self.query@.len() - j,
        {
            q.push(self.query[j]);
            proof {
                assert(q@ =~= self.query@.subrange(0, j + 1));
            }
            j += 1;
        }
        proof {
            assert(self.query@.subrange(0, self.query@.len() as int) =~= self.query@);
        }
        let has_prev = self.page > 0;
        let rem = self.matches.len() - start;
        let has_next = self.page_size < rem;
        proof {
            if self.matches@.len() > 0 {
                lemma_page_lt_iff(self@.page, self@.page_size, self@.matches.len() as int);
            }
        }
        RenderPlan { query: q, rows, has_prev, has_next }
    }

    /// The terminal outcome, if any.
    pub fn outcome(&self) -> (r: Outcome)
        ensures
            r == self@.outcome,
    {
        self.outcome
    }

    /// Whether the session has reached a terminal outcome.
    pub fn is_finished(&self) -> (r: bool)
        ensures
            r == !(self@.outcome is Pending),
    {
        match self.outcome {
            Outcome::Pending => false,
            _ => true,
        }
    }

    /// The committed candidate, if the session committed.
    pub fn selected(&self) -> (r: Option<&Candidate>)
        requires
            self.wf(),
        ensures
            match self@.outcome {
                Outcome::Committed(i) => r matches Some(c) && c@ == self@.cands[i as int],
                _ => r is None,
            },
    {
        match self.outcome {
            Outcome::Committed(i) => Some(&self.candidates[i]),
            _ => None,
        }
    }

    /// The current page index.
    pub fn page(&self) -> (r: usize)
        ensures
            r as int == self@.page,
    {
        self.page
    }

    /// The cursor's position within the visible page.
    pub fn cursor(&self) -> (r: usize)
        ensures
            r as int == self@.cursor,
    {
        self.cursor
    }

    /// How many candidates match the current query.
    pub fn num_matches(&self) -> (r: usize)
        ensures
            r == self@.matches.len(),
    {
        self.matches.len()
    }
}

} // verus!
