//! Ranking: a sort by a total order on the rows, and the top-`k`
//! selector behind the group-by-count queries.
use vstd::prelude::*;
use vstd::relations::{sorted_by, total_ordering};
use crate::textorder::{
    lemma_text_before_asymmetric, lemma_text_before_total, lemma_text_before_transitive, text_before,
    text_le, text_lt,
};

verus! {

/// Rows with a total order: `ranks_le(a, b)` when `a` comes no later than `b`.
pub trait RankOrder: Sized {
    spec fn ranks_le(self, other: Self) -> bool;

    proof fn lemma_rank_total()
        ensures
            total_ordering(|a: Self, b: Self| a.ranks_le(b)),
    ;

    fn comes_no_later(&self, other: &Self) -> (r: bool)
        ensures
            r == self.ranks_le(*other),
    ;
}

/// The order of a ranked row type as a relation.
pub open spec fn rank_rel<T: RankOrder>() -> spec_fn(T, T) -> bool {
    |a: T, b: T| a.ranks_le(b)
}

/// Inserting `x` at `p` keeps a sequence sorted by the total order `r` when
/// everything before `p` comes strictly before `x` and `x` comes no later
/// than what stood at `p`.
proof fn lemma_insert_sorted<A>(s: Seq<A>, p: int, x: A, r: spec_fn(A, A) -> bool)
    requires
        0 <= p <= s.len(),
        sorted_by(s, r),
        total_ordering(r),
        forall|j: int| 0 <= j < p ==> !r(x, #[trigger] s[j]),
        p < s.len() ==> r(x, s[p]),
    ensures
        sorted_by(s.insert(p, x), r),
{
    let t = s.insert(p, x);
    assert forall|i: int, j: int| 0 <= i < j < t.len() implies #[trigger] r(t[i], t[j]) by {
        if i < p && j < p {
            assert(r(s[i], s[j]));
        } else if i < p && j == p {
            assert(!r(x, s[i]));
            assert(r(s[i], x) || r(x, s[i]));
        } else if i < p {
            assert(r(s[i], s[j - 1]));
        } else if i == p {
            assert(r(x, s[p]));
            if j - 1 > p {
                assert(r(s[p], s[j - 1]));
            }
        } else {
            assert(r(s[i - 1], s[j - 1]));
        }
    }
}

/// The rows of `v` in rank order (ties keep no particular order; a total
/// order has no ties between distinct rows).
pub fn sort_ranked<T: RankOrder>(v: Vec<T>) -> (r: Vec<T>)
    ensures
        r@ == v@.sort_by(rank_rel::<T>()),
{
    proof {
        T::lemma_rank_total();
        assert(rank_rel::<T>() == |a: T, b: T| a.ranks_le(b));
    }
    let ghost orig = v@;
    let mut src = v;
    let mut out: Vec<T> = Vec::new();
    proof {
        broadcast use vstd::seq_lib::group_to_multiset_ensures;
        broadcast use vstd::multiset::group_multiset_axioms;
        vstd::multiset::lemma_multiset_empty_len(out@.to_multiset());
        assert(out@.to_multiset().add(src@.to_multiset()) =~= orig.to_multiset());
    }
    while src.len() > 0
        invariant
            total_ordering(rank_rel::<T>()),
            sorted_by(out@, rank_rel::<T>()),
            out@.to_multiset().add(src@.to_multiset()) == orig.to_multiset(),
        decreases src.len(),
    {
        let ghost before_src = src@;
        let x = src.pop().unwrap();
        proof {
            broadcast use vstd::seq_lib::group_to_multiset_ensures;
            assert(before_src =~= src@.push(x));
        }
        let mut p: usize = 0;
        while p < out.len() && !x.comes_no_later(&out[p])
            invariant
                p <= out.len(),
                forall|j: int| 0 <= j < p ==> !x.ranks_le(#[trigger] out@[j]),
                rank_rel::<T>() == |a: T, b: T| a.ranks_le(b),
            decreases out.len() - p,
        {
            p = p + 1;
        }
        proof {
            lemma_insert_sorted(out@, p as int, x, rank_rel::<T>());
            broadcast use vstd::seq_lib::group_to_multiset_ensures;
            vstd::seq_lib::lemma_multiset_commutative(out@.take(p as int), out@.skip(p as int));
            assert(out@.insert(p as int, x) =~= out@.take(p as int) + seq![x] + out@.skip(p as int));
            assert(out@ =~= out@.take(p as int) + out@.skip(p as int));
            vstd::seq_lib::lemma_multiset_commutative(
                out@.take(p as int) + seq![x],
                out@.skip(p as int),
            );
            vstd::seq_lib::lemma_multiset_commutative(out@.take(p as int), seq![x]);
        }
        out.insert(p, x);
    }
    proof {
        broadcast use vstd::seq_lib::group_to_multiset_ensures;
        broadcast use vstd::multiset::group_multiset_axioms;
        vstd::multiset::lemma_multiset_empty_len(src@.to_multiset());
        assert(src@.to_multiset() =~= vstd::multiset::Multiset::empty());
        assert(out@.to_multiset() =~= orig.to_multiset());
        orig.lemma_sort_by_ensures(rank_rel::<T>());
        vstd::seq_lib::lemma_sorted_unique(out@, orig.sort_by(rank_rel::<T>()), rank_rel::<T>());
    }
    out
}

/// Rows ordered by what they hold: `view_le(a, b)` when a row whose view is
/// `a` comes no later than one whose view is `b`.
pub trait ViewOrder: View + Sized {
    spec fn view_le(a: Self::V, b: Self::V) -> bool;

    proof fn lemma_view_total()
        ensures
            total_ordering(|a: Self::V, b: Self::V| Self::view_le(a, b)),
    ;

    fn sorts_no_later(&self, other: &Self) -> (r: bool)
        ensures
            r == Self::view_le(self@, other@),
    ;
}

/// The order of a view-ordered row type, as a relation on views.
pub open spec fn view_rel<T: ViewOrder>() -> spec_fn(T::V, T::V) -> bool {
    |a: T::V, b: T::V| T::view_le(a, b)
}

/// The views of a sequence of rows.
pub open spec fn views<T: View>(s: Seq<T>) -> Seq<T::V> {
    s.map_values(|x: T| x@)
}

/// The rows of `v` in the order of their views.
pub fn sort_by_view<T: ViewOrder>(v: Vec<T>) -> (r: Vec<T>)
    ensures
        views(r@) == views(v@).sort_by(view_rel::<T>()),
{
    let ghost rel = view_rel::<T>();
    proof {
        T::lemma_view_total();
        assert(rel == |a: T::V, b: T::V| T::view_le(a, b));
    }
    let ghost orig = views(v@);
    let mut src = v;
    let mut out: Vec<T> = Vec::new();
    proof {
        broadcast use vstd::seq_lib::group_to_multiset_ensures;
        broadcast use vstd::multiset::group_multiset_axioms;
        vstd::multiset::lemma_multiset_empty_len(views(out@).to_multiset());
        assert(views(src@) =~= orig);
        assert(views(out@).to_multiset().add(views(src@).to_multiset()) =~= orig.to_multiset());
    }
    while src.len() > 0
        invariant
            rel == view_rel::<T>(),
            total_ordering(rel),
            sorted_by(views(out@), rel),
            views(out@).to_multiset().add(views(src@).to_multiset()) == orig.to_multiset(),
        decreases src.len(),
    {
        let ghost before_src = src@;
        let x = src.pop().unwrap();
        proof {
            broadcast use vstd::seq_lib::group_to_multiset_ensures;
            assert(before_src =~= src@.push(x));
            assert(views(before_src) =~= views(src@).push(x@));
        }
        let mut p: usize = 0;
        while p < out.len() && !x.sorts_no_later(&out[p])
            invariant
                p <= out.len(),
                rel == view_rel::<T>(),
                forall|j: int| 0 <= j < p ==> !rel(x@, #[trigger] views(out@)[j]),
            decreases out.len() - p,
        {
            p = p + 1;
        }
        let ghost vo = views(out@);
        proof {
            lemma_insert_sorted(vo, p as int, x@, rel);
            broadcast use vstd::seq_lib::group_to_multiset_ensures;
            vstd::seq_lib::lemma_multiset_commutative(vo.take(p as int), vo.skip(p as int));
            assert(vo.insert(p as int, x@) =~= vo.take(p as int) + seq![x@] + vo.skip(p as int));
            assert(vo =~= vo.take(p as int) + vo.skip(p as int));
            vstd::seq_lib::lemma_multiset_commutative(vo.take(p as int) + seq![x@], vo.skip(p as int));
            vstd::seq_lib::lemma_multiset_commutative(vo.take(p as int), seq![x@]);
        }
        out.insert(p, x);
        proof {
            assert(views(out@) =~= vo.insert(p as int, x@));
        }
    }
    proof {
        broadcast use vstd::seq_lib::group_to_multiset_ensures;
        broadcast use vstd::multiset::group_multiset_axioms;
        vstd::multiset::lemma_multiset_empty_len(views(src@).to_multiset());
        assert(views(src@).to_multiset() =~= vstd::multiset::Multiset::empty());
        assert(views(out@).to_multiset() =~= orig.to_multiset());
        orig.lemma_sort_by_ensures(rel);
        vstd::seq_lib::lemma_sorted_unique(views(out@), orig.sort_by(rel), rel);
    }
    out
}


/// `a` sorts no later than `b` as text.
pub open spec fn text_no_later(a: Seq<char>, b: Seq<char>) -> bool {
    a == b || text_before(a, b)
}

/// The text order facts the row orders below rest on.
proof fn lemma_text_order()
    ensures
        forall|a: Seq<char>| !#[trigger] text_before(a, a),
        forall|a: Seq<char>, b: Seq<char>| #[trigger] text_before(a, b) ==> !text_before(b, a),
        forall|a: Seq<char>, b: Seq<char>, c: Seq<char>|
            #[trigger] text_before(a, b) && #[trigger] text_before(b, c) ==> text_before(a, c),
        forall|a: Seq<char>, b: Seq<char>| a == b || #[trigger] text_before(a, b) || #[trigger] text_before(b, a),
{
    assert forall|a: Seq<char>| !#[trigger] text_before(a, a) by {
        lemma_text_before_asymmetric(a, a);
    }
    assert forall|a: Seq<char>, b: Seq<char>| #[trigger] text_before(a, b) implies !text_before(b, a) by {
        lemma_text_before_asymmetric(a, b);
    }
    assert forall|a: Seq<char>, b: Seq<char>, c: Seq<char>|
        #[trigger] text_before(a, b) && #[trigger] text_before(b, c) implies text_before(a, c) by {
        lemma_text_before_transitive(a, b, c);
    }
    assert forall|a: Seq<char>, b: Seq<char>| a == b || #[trigger] text_before(a, b) || #[trigger] text_before(b, a) by {
        lemma_text_before_total(a, b);
    }
}

impl ViewOrder for (u32, String) {
    /// A `(node, timestamp)` row: newest timestamp first, node id ascending on ties.
    open spec fn view_le(a: (u32, Seq<char>), b: (u32, Seq<char>)) -> bool {
        text_before(b.1, a.1) || (a.1 == b.1 && a.0 <= b.0)
    }

    proof fn lemma_view_total() {
        lemma_text_order();
    }

    fn sorts_no_later(&self, other: &Self) -> (r: bool) {
        if text_lt(other.1.as_str(), self.1.as_str()) {
            true
        } else if text_lt(self.1.as_str(), other.1.as_str()) {
            false
        } else {
            proof {
                lemma_text_before_total(self.1@, other.1@);
            }
            self.0 <= other.0
        }
    }
}

impl ViewOrder for (String, usize) {
    /// A `(name, count)` row: count descending, name ascending on ties.
    open spec fn view_le(a: (Seq<char>, usize), b: (Seq<char>, usize)) -> bool {
        a.1 > b.1 || (a.1 == b.1 && text_no_later(a.0, b.0))
    }

    proof fn lemma_view_total() {
        lemma_text_order();
    }

    fn sorts_no_later(&self, other: &Self) -> (r: bool) {
        self.1 > other.1 || (self.1 == other.1 && text_le(self.0.as_str(), other.0.as_str()))
    }
}

impl ViewOrder for (String, String) {
    /// A pair of texts in lexicographic order, by the first then the second.
    open spec fn view_le(a: (Seq<char>, Seq<char>), b: (Seq<char>, Seq<char>)) -> bool {
        text_before(a.0, b.0) || (a.0 == b.0 && text_no_later(a.1, b.1))
    }

    proof fn lemma_view_total() {
        lemma_text_order();
    }

    fn sorts_no_later(&self, other: &Self) -> (r: bool) {
        if text_lt(self.0.as_str(), other.0.as_str()) {
            true
        } else if text_lt(other.0.as_str(), self.0.as_str()) {
            false
        } else {
            proof {
                lemma_text_before_total(self.0@, other.0@);
            }
            text_le(self.1.as_str(), other.1.as_str())
        }
    }
}

impl ViewOrder for (u32, usize, i64, String) {
    /// A `(topic, count, newest, newest text)` row: newest first, then count
    /// descending, then topic id ascending, then the text.
    open spec fn view_le(a: (u32, usize, i64, Seq<char>), b: (u32, usize, i64, Seq<char>)) -> bool {
        a.2 > b.2 || (a.2 == b.2 && (a.1 > b.1 || (a.1 == b.1 && (a.0 < b.0 || (a.0 == b.0 && text_no_later(a.3, b.3))))))
    }

    proof fn lemma_view_total() {
        lemma_text_order();
    }

    fn sorts_no_later(&self, other: &Self) -> (r: bool) {
        if self.2 != other.2 {
            self.2 > other.2
        } else if self.1 != other.1 {
            self.1 > other.1
        } else if self.0 != other.0 {
            self.0 < other.0
        } else {
            text_le(self.3.as_str(), other.3.as_str())
        }
    }
}

impl ViewOrder for (u32, String, i64, u32) {
    /// A `(hops, last name, LDBC id, node)` row: fewest hops first, then last
    /// name, then LDBC id, then node id.
    open spec fn view_le(a: (u32, Seq<char>, i64, u32), b: (u32, Seq<char>, i64, u32)) -> bool {
        a.0 < b.0 || (a.0 == b.0 && (text_before(a.1, b.1) || (a.1 == b.1 && (a.2 < b.2 || (a.2 == b.2 && a.3 <= b.3)))))
    }

    proof fn lemma_view_total() {
        lemma_text_order();
    }

    fn sorts_no_later(&self, other: &Self) -> (r: bool) {
        if self.0 != other.0 {
            self.0 < other.0
        } else if text_lt(self.1.as_str(), other.1.as_str()) {
            true
        } else if text_lt(other.1.as_str(), self.1.as_str()) {
            false
        } else {
            proof {
                lemma_text_before_total(self.1@, other.1@);
            }
            self.2 < other.2 || (self.2 == other.2 && self.3 <= other.3)
        }
    }
}

impl ViewOrder for (String, u64, u64, u64) {
    /// A `(name, first, second, difference)` row: difference descending,
    /// then name ascending, then the two counts ascending.
    open spec fn view_le(a: (Seq<char>, u64, u64, u64), b: (Seq<char>, u64, u64, u64)) -> bool {
        a.3 > b.3 || (a.3 == b.3 && (text_before(a.0, b.0) || (a.0 == b.0 && (a.1 < b.1 || (a.1 == b.1 && a.2 <= b.2)))))
    }

    proof fn lemma_view_total() {
        lemma_text_order();
    }

    fn sorts_no_later(&self, other: &Self) -> (r: bool) {
        if self.3 != other.3 {
            self.3 > other.3
        } else if text_lt(self.0.as_str(), other.0.as_str()) {
            true
        } else if text_lt(other.0.as_str(), self.0.as_str()) {
            false
        } else {
            proof {
                lemma_text_before_total(self.0@, other.0@);
            }
            self.1 < other.1 || (self.1 == other.1 && self.2 <= other.2)
        }
    }
}

impl ViewOrder for (i64, i64, i64, u64, u32, u32, String) {
    /// A `(score, first id, second id, position, first, second, name)` row:
    /// score descending, then the two ids and the position ascending (the
    /// nodes and the name break no tie between rows of distinct positions).
    open spec fn view_le(
        a: (i64, i64, i64, u64, u32, u32, Seq<char>),
        b: (i64, i64, i64, u64, u32, u32, Seq<char>),
    ) -> bool {
        if a.0 != b.0 {
            a.0 > b.0
        } else if a.1 != b.1 {
            a.1 < b.1
        } else if a.2 != b.2 {
            a.2 < b.2
        } else if a.3 != b.3 {
            a.3 < b.3
        } else if a.4 != b.4 {
            a.4 < b.4
        } else if a.5 != b.5 {
            a.5 < b.5
        } else {
            text_no_later(a.6, b.6)
        }
    }

    proof fn lemma_view_total() {
        lemma_text_order();
    }

    fn sorts_no_later(&self, other: &Self) -> (r: bool) {
        if self.0 != other.0 {
            self.0 > other.0
        } else if self.1 != other.1 {
            self.1 < other.1
        } else if self.2 != other.2 {
            self.2 < other.2
        } else if self.3 != other.3 {
            self.3 < other.3
        } else if self.4 != other.4 {
            self.4 < other.4
        } else if self.5 != other.5 {
            self.5 < other.5
        } else {
            text_le(self.6.as_str(), other.6.as_str())
        }
    }
}

impl ViewOrder for (i64, i64, u64, String, i64, i64) {
    /// A `(count, id, position, name, day, person id)` row: largest count
    /// first, then id, then position, then the rest.
    open spec fn view_le(a: (i64, i64, u64, Seq<char>, i64, i64), b: (i64, i64, u64, Seq<char>, i64, i64)) -> bool {
        if a.0 != b.0 {
            a.0 > b.0
        } else if a.1 != b.1 {
            a.1 < b.1
        } else if a.2 != b.2 {
            a.2 < b.2
        } else if a.3 != b.3 {
            text_before(a.3, b.3)
        } else if a.4 != b.4 {
            a.4 < b.4
        } else {
            a.5 <= b.5
        }
    }

    proof fn lemma_view_total() {
        lemma_text_order();
    }

    fn sorts_no_later(&self, other: &Self) -> (r: bool) {
        proof {
            lemma_text_order();
        }
        if self.0 != other.0 {
            self.0 > other.0
        } else if self.1 != other.1 {
            self.1 < other.1
        } else if self.2 != other.2 {
            self.2 < other.2
        } else if text_lt(self.3.as_str(), other.3.as_str()) {
            true
        } else if text_lt(other.3.as_str(), self.3.as_str()) {
            false
        } else {
            proof {
                lemma_text_before_total(self.3@, other.3@);
            }
            self.4 < other.4 || (self.4 == other.4 && self.5 <= other.5)
        }
    }
}

impl ViewOrder for (i64, String, i64, u32) {
    /// A `(count, name, id, node)` row: largest count first, then name, then
    /// id, then node.
    open spec fn view_le(a: (i64, Seq<char>, i64, u32), b: (i64, Seq<char>, i64, u32)) -> bool {
        if a.0 != b.0 {
            a.0 > b.0
        } else if a.1 != b.1 {
            text_before(a.1, b.1)
        } else if a.2 != b.2 {
            a.2 < b.2
        } else {
            a.3 <= b.3
        }
    }

    proof fn lemma_view_total() {
        lemma_text_order();
    }

    fn sorts_no_later(&self, other: &Self) -> (r: bool) {
        proof {
            lemma_text_order();
        }
        if self.0 != other.0 {
            self.0 > other.0
        } else if text_lt(self.1.as_str(), other.1.as_str()) {
            true
        } else if text_lt(other.1.as_str(), self.1.as_str()) {
            false
        } else {
            proof {
                lemma_text_before_total(self.1@, other.1@);
            }
            self.2 < other.2 || (self.2 == other.2 && self.3 <= other.3)
        }
    }
}

impl RankOrder for u32 {
    /// Labels in ascending order.
    open spec fn ranks_le(self, other: Self) -> bool {
        self <= other
    }

    proof fn lemma_rank_total() {
    }

    fn comes_no_later(&self, other: &Self) -> (r: bool) {
        *self <= *other
    }
}

impl RankOrder for u128 {
    /// Timing samples in ascending order.
    open spec fn ranks_le(self, other: Self) -> bool {
        self <= other
    }

    proof fn lemma_rank_total() {
    }

    fn comes_no_later(&self, other: &Self) -> (r: bool) {
        *self <= *other
    }
}

impl RankOrder for (u32, usize) {
    /// A `(node, count)` histogram row: count descending, node id ascending on ties.
    open spec fn ranks_le(self, other: Self) -> bool {
        self.1 > other.1 || (self.1 == other.1 && self.0 <= other.0)
    }

    proof fn lemma_rank_total() {
    }

    fn comes_no_later(&self, other: &Self) -> (r: bool) {
        self.1 > other.1 || (self.1 == other.1 && self.0 <= other.0)
    }
}

impl RankOrder for (u32, i64) {
    /// A `(message, timestamp)` row: newest first, message id ascending on ties.
    open spec fn ranks_le(self, other: Self) -> bool {
        self.1 > other.1 || (self.1 == other.1 && self.0 <= other.0)
    }

    proof fn lemma_rank_total() {
    }

    fn comes_no_later(&self, other: &Self) -> (r: bool) {
        self.1 > other.1 || (self.1 == other.1 && self.0 <= other.0)
    }
}

/// Sort a `node -> count` histogram by count descending, node id ascending on
/// ties, and keep the top `limit`: the selector behind the group-by-count queries.
pub fn top_k_by_count(counts: Vec<(u32, usize)>, limit: usize) -> (r: Vec<(u32, usize)>)
    ensures
        r@ == counts@.sort_by(rank_rel::<(u32, usize)>()).take(
            if limit < counts@.len() { limit as int } else { counts@.len() as int },
        ),
{
    let mut rows = sort_ranked(counts);
    proof {
        let r = rank_rel::<(u32, usize)>();
        <(u32, usize)>::lemma_rank_total();
        assert(r == |a: (u32, usize), b: (u32, usize)| a.ranks_le(b));
        counts@.lemma_sort_by_ensures(r);
        broadcast use vstd::seq_lib::group_to_multiset_ensures;
        assert(counts@.sort_by(r).to_multiset().len() == counts@.to_multiset().len());
        assert(rows@.len() == counts@.len());
    }
    rows.truncate(limit);
    assert(rows@ =~= counts@.sort_by(rank_rel::<(u32, usize)>()).take(
        if limit < counts@.len() { limit as int } else { counts@.len() as int },
    ));
    rows
}

/// The first `limit` items of `s`, or all of them when there are fewer.
pub open spec fn take_upto<A>(s: Seq<A>, limit: int) -> Seq<A> {
    s.take(
        if limit < s.len() {
            limit
        } else {
            s.len() as int
        },
    )
}

/// The rows of `v` in view order, truncated to the first `limit`.
pub fn sort_and_take<T: ViewOrder>(v: Vec<T>, limit: usize) -> (r: Vec<T>)
    ensures
        views(r@) == take_upto(views(v@).sort_by(view_rel::<T>()), limit as int),
{
    let ghost input = views(v@);
    let mut rows = sort_by_view(v);
    proof {
        T::lemma_view_total();
        let rel = view_rel::<T>();
        assert(rel == |a: T::V, b: T::V| T::view_le(a, b));
        input.lemma_sort_by_ensures(rel);
        broadcast use vstd::seq_lib::group_to_multiset_ensures;
        assert(input.sort_by(rel).to_multiset().len() == input.to_multiset().len());
        assert(views(rows@).len() == rows@.len());
    }
    rows.truncate(limit);
    proof {
        assert(views(rows@) =~= take_upto(input.sort_by(view_rel::<T>()), limit as int));
    }
    rows
}

/// The nodes of `(node, timestamp)` rows, newest first (node id ascending
/// on ties), truncated to the first `limit`.
pub open spec fn newest_first(rows: Seq<(u32, Seq<char>)>, limit: int) -> Seq<u32> {
    take_upto(rows.sort_by(view_rel::<(u32, String)>()), limit).map_values(|x: (u32, Seq<char>)| x.0)
}

/// The nodes of `(node, timestamp)` rows, newest first, the first `limit`.
pub fn rank_newest(rows: Vec<(u32, String)>, limit: usize) -> (r: Vec<u32>)
    ensures
        r@ == newest_first(views(rows@), limit as int),
{
    let ranked = sort_and_take(rows, limit);
    let mut out: Vec<u32> = Vec::new();
    let mut i: usize = 0;
    while i < ranked.len()
        invariant
            i <= ranked@.len(),
            out@ == views(ranked@).take(i as int).map_values(|x: (u32, Seq<char>)| x.0),
        decreases ranked.len() - i,
    {
        out.push(ranked[i].0);
        proof {
            assert(views(ranked@)[i as int].0 == ranked@[i as int].0);
            assert(views(ranked@).take(i + 1).map_values(|x: (u32, Seq<char>)| x.0) =~= views(ranked@).take(
                i as int,
            ).map_values(|x: (u32, Seq<char>)| x.0).push(ranked@[i as int].0));
        }
        i = i + 1;
    }
    proof {
        assert(views(ranked@).take(i as int) =~= views(ranked@));
    }
    out
}

/// A smaller limit keeps a prefix of what a larger one keeps: raising the
/// limit of a ranked query only appends rows.
pub proof fn law_limit_keeps_prefix<A>(s: Seq<A>, small: int, large: int)
    requires
        0 <= small <= large,
    ensures
        take_upto(s, small) == take_upto(take_upto(s, large), small),
{
    assert(take_upto(s, small) =~= take_upto(take_upto(s, large), small));
}

/// The same holds of the node lists ranked newest first.
pub proof fn law_newest_limit_keeps_prefix(rows: Seq<(u32, Seq<char>)>, small: int, large: int)
    requires
        0 <= small <= large,
    ensures
        newest_first(rows, small) == newest_first(rows, large).take(
            if small < newest_first(rows, large).len() {
                small
            } else {
                newest_first(rows, large).len() as int
            },
        ),
{
    let sorted = rows.sort_by(view_rel::<(u32, String)>());
    let big = take_upto(sorted, large);
    let little = take_upto(sorted, small);
    assert(little =~= take_upto(big, small));
    assert(newest_first(rows, small) =~= newest_first(rows, large).take(
        if small < newest_first(rows, large).len() {
            small
        } else {
            newest_first(rows, large).len() as int
        },
    ));
}

/// The rows of `v` in rank order, truncated to the first `limit`.
pub fn rank_and_take<T: RankOrder>(v: Vec<T>, limit: usize) -> (r: Vec<T>)
    ensures
        r@ == take_upto(v@.sort_by(rank_rel::<T>()), limit as int),
{
    let mut rows = sort_ranked(v);
    proof {
        let r = rank_rel::<T>();
        T::lemma_rank_total();
        assert(r == |a: T, b: T| a.ranks_le(b));
        v@.lemma_sort_by_ensures(r);
        broadcast use vstd::seq_lib::group_to_multiset_ensures;
        assert(v@.sort_by(r).to_multiset().len() == v@.to_multiset().len());
    }
    let ghost sorted = rows@;
    rows.truncate(limit);
    proof {
        assert(rows@ =~= take_upto(sorted, limit as int));
    }
    rows
}

/// What a sort by a total order `r` and a cut to the first `m` give: the
/// rows in order, only rows of `s`, and every row of `s` left out comes no
/// earlier than each row kept.
pub proof fn lemma_sorted_take<A>(s: Seq<A>, r: spec_fn(A, A) -> bool, m: int)
    requires
        total_ordering(r),
        0 <= m,
    ensures
        forall|i: int, j: int| 0 <= i < j < s.sort_by(r).len() ==> r(#[trigger] s.sort_by(r)[i], #[trigger] s.sort_by(r)[j]),
        forall|x: A| #[trigger] take_upto(s.sort_by(r), m).contains(x) ==> s.contains(x),
        forall|x: A, i: int|
            #![trigger s.contains(x), take_upto(s.sort_by(r), m)[i]]
            s.contains(x) && !take_upto(s.sort_by(r), m).contains(x) && 0 <= i < take_upto(s.sort_by(r), m).len()
                ==> r(take_upto(s.sort_by(r), m)[i], x),
{
    broadcast use vstd::seq_lib::group_to_multiset_ensures;
    s.lemma_sort_by_ensures(r);
    let t = s.sort_by(r);
    let k = take_upto(t, m);
    assert(t.len() == s.len()) by {
        assert(t.to_multiset().len() == s.to_multiset().len());
    }
    assert forall|x: A| #[trigger] k.contains(x) implies s.contains(x) by {
        let q = choose|q: int| 0 <= q < k.len() && k[q] == x;
        assert(k[q] == t[q]);
        assert(t[q] == x);
        assert(t.contains(x));
        assert(t.to_multiset().count(x) > 0);
    }
    assert forall|x: A, i: int|
        #![trigger s.contains(x), k[i]]
        s.contains(x) && !k.contains(x) && 0 <= i < k.len() implies r(k[i], x) by {
        assert(s.to_multiset().count(x) > 0);
        assert(t.contains(x));
        let q = choose|q: int| 0 <= q < t.len() && t[q] == x;
        if q < k.len() {
            assert(k[q] == x);
        }
        assert(k[i] == t[i]);
        assert(r(t[i], t[q]));
    }
}

/// [`lemma_sorted_take`] for a rank order: the kept rows in rank order, all
/// from `s`, and every row of `s` left out ranked no earlier than each kept.
pub proof fn lemma_ranked_take<T: RankOrder>(s: Seq<T>, m: int)
    requires
        0 <= m,
    ensures
        forall|i: int, j: int|
            0 <= i < j < take_upto(s.sort_by(rank_rel::<T>()), m).len() ==> (#[trigger] take_upto(
                s.sort_by(rank_rel::<T>()),
                m,
            )[i]).ranks_le(#[trigger] take_upto(s.sort_by(rank_rel::<T>()), m)[j]),
        forall|x: T| #[trigger] take_upto(s.sort_by(rank_rel::<T>()), m).contains(x) ==> s.contains(x),
        forall|x: T, i: int|
            #![trigger s.contains(x), take_upto(s.sort_by(rank_rel::<T>()), m)[i]]
            s.contains(x) && !take_upto(s.sort_by(rank_rel::<T>()), m).contains(x) && 0 <= i < take_upto(
                s.sort_by(rank_rel::<T>()),
                m,
            ).len() ==> take_upto(s.sort_by(rank_rel::<T>()), m)[i].ranks_le(x),
{
    let r = rank_rel::<T>();
    T::lemma_rank_total();
    assert(r == |a: T, b: T| a.ranks_le(b));
    lemma_sorted_take(s, r, m);
    let t = s.sort_by(r);
    let k = take_upto(t, m);
    assert forall|i: int, j: int| 0 <= i < j < k.len() implies (#[trigger] k[i]).ranks_le(#[trigger] k[j]) by {
        assert(k[i] == t[i] && k[j] == t[j]);
        assert(r(t[i], t[j]));
    }
    assert forall|x: T, i: int|
        #![trigger s.contains(x), k[i]]
        s.contains(x) && !k.contains(x) && 0 <= i < k.len() implies k[i].ranks_le(x) by {
        assert(r(k[i], x));
    }
}

/// `(node, timestamp)` rows: a later timestamp comes first, and a row comes no later than another only with a timestamp no earlier.
pub proof fn law_timestamp_rows_newest_first(a: (u32, Seq<char>), b: (u32, Seq<char>))
    ensures
        text_before(b.1, a.1) ==> <(u32, String)>::view_le(a, b),
        <(u32, String)>::view_le(a, b) ==> text_before(b.1, a.1) || a.1 == b.1,
{
}

/// `(name, count)` rows: a larger count comes first, and a row comes no later than another only with a count no smaller.
pub proof fn law_name_count_rows_most_first(a: (Seq<char>, usize), b: (Seq<char>, usize))
    ensures
        a.1 > b.1 ==> <(String, usize)>::view_le(a, b),
        <(String, usize)>::view_le(a, b) ==> a.1 >= b.1,
{
}

/// Pairs of texts: a pair whose first text is earlier comes first, and a pair comes no later than another only with a first text no later.
pub proof fn law_text_pairs_by_first(a: (Seq<char>, Seq<char>), b: (Seq<char>, Seq<char>))
    ensures
        text_before(a.0, b.0) ==> <(String, String)>::view_le(a, b),
        <(String, String)>::view_le(a, b) ==> text_before(a.0, b.0) || a.0 == b.0,
{
}

/// `(topic, count, newest, text)` rows: a newer row comes first, and a row comes no later than another only when no older.
pub proof fn law_topic_rows_newest_first(a: (u32, usize, i64, Seq<char>), b: (u32, usize, i64, Seq<char>))
    ensures
        a.2 > b.2 ==> <(u32, usize, i64, String)>::view_le(a, b),
        <(u32, usize, i64, String)>::view_le(a, b) ==> a.2 >= b.2,
{
}

/// `(hops, name, id, node)` rows: fewer hops come first, and a row comes no later than another only with no more hops.
pub proof fn law_hop_rows_fewest_first(a: (u32, Seq<char>, i64, u32), b: (u32, Seq<char>, i64, u32))
    ensures
        a.0 < b.0 ==> <(u32, String, i64, u32)>::view_le(a, b),
        <(u32, String, i64, u32)>::view_le(a, b) ==> a.0 <= b.0,
{
}

/// `(name, first, second, difference)` rows: a larger difference comes first, and a row comes no later than another only with a difference no smaller.
pub proof fn law_evolution_rows_largest_difference_first(a: (Seq<char>, u64, u64, u64), b: (Seq<char>, u64, u64, u64))
    ensures
        a.3 > b.3 ==> <(String, u64, u64, u64)>::view_le(a, b),
        <(String, u64, u64, u64)>::view_le(a, b) ==> a.3 >= b.3,
{
}

/// Dialog rows: a higher score comes first, and a row comes no later than another only with a score no lower.
pub proof fn law_dialog_rows_highest_score_first(a: (i64, i64, i64, u64, u32, u32, Seq<char>), b: (i64, i64, i64, u64, u32, u32, Seq<char>))
    ensures
        a.0 > b.0 ==> <(i64, i64, i64, u64, u32, u32, String)>::view_le(a, b),
        <(i64, i64, i64, u64, u32, u32, String)>::view_le(a, b) ==> a.0 >= b.0,
{
}

/// `(count, id, ...)` rows: a larger count comes first, and a row comes no later than another only with a count no smaller.
pub proof fn law_count_id_rows_largest_first(a: (i64, i64, u64, Seq<char>, i64, i64), b: (i64, i64, u64, Seq<char>, i64, i64))
    ensures
        a.0 > b.0 ==> <(i64, i64, u64, String, i64, i64)>::view_le(a, b),
        <(i64, i64, u64, String, i64, i64)>::view_le(a, b) ==> a.0 >= b.0,
{
}

/// `(count, name, id, node)` rows: a larger count comes first, and a row comes no later than another only with a count no smaller.
pub proof fn law_count_name_rows_largest_first(a: (i64, Seq<char>, i64, u32), b: (i64, Seq<char>, i64, u32))
    ensures
        a.0 > b.0 ==> <(i64, String, i64, u32)>::view_le(a, b),
        <(i64, String, i64, u32)>::view_le(a, b) ==> a.0 >= b.0,
{
}

/// Labels rank in ascending order.
pub proof fn law_labels_ascending(a: u32, b: u32)
    ensures
        a < b ==> a.ranks_le(b),
        a.ranks_le(b) ==> a <= b,
{
}

/// Timing samples rank in ascending order.
pub proof fn law_samples_ascending(a: u128, b: u128)
    ensures
        a < b ==> a.ranks_le(b),
        a.ranks_le(b) ==> a <= b,
{
}

/// `(node, count)` rows: a larger count comes first, and a row comes no later than another only with a count no smaller.
pub proof fn law_histogram_largest_count_first(a: (u32, usize), b: (u32, usize))
    ensures
        a.1 > b.1 ==> a.ranks_le(b),
        a.ranks_le(b) ==> a.1 >= b.1,
{
}

/// `(message, timestamp)` rows: a later timestamp comes first, and a row comes no later than another only with a timestamp no earlier.
pub proof fn law_messages_newest_first(a: (u32, i64), b: (u32, i64))
    ensures
        a.1 > b.1 ==> a.ranks_le(b),
        a.ranks_le(b) ==> a.1 >= b.1,
{
}

} // verus!
