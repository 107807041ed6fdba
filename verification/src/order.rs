//! Sorting.

use vstd::prelude::*;

use crate::duration::{nanos_of, Duration};
use crate::text::{chars_of, texts};

verus! {

broadcast use {vstd::seq_lib::group_to_multiset_ensures, vstd::multiset::group_multiset_axioms};

/// No number stands before a smaller one.
pub open spec fn is_ascending(s: Seq<nat>) -> bool {
    forall|i: int, j: int| 0 <= i <= j < s.len() ==> s[i] <= s[j]
}

/// `x`, put behind the numbers of the ascending sequence `s` that do not exceed it.
pub open spec fn insert_ascending(s: Seq<nat>, x: nat) -> Seq<nat>
    decreases s.len(),
{
    if s.len() == 0 || s.last() <= x {
        s.push(x)
    } else {
        insert_ascending(s.drop_last(), x).push(s.last())
    }
}

/// The numbers of `s` in ascending order.
pub open spec fn ascending(s: Seq<nat>) -> Seq<nat>
    decreases s.len(),
{
    if s.len() == 0 {
        s
    } else {
        insert_ascending(ascending(s.drop_last()), s.last())
    }
}

proof fn lemma_insert_ascending(s: Seq<nat>, x: nat)
    requires
        is_ascending(s),
    ensures
        is_ascending(insert_ascending(s, x)),
        insert_ascending(s, x).to_multiset() == s.to_multiset().insert(x),
        insert_ascending(s, x).len() == s.len() + 1,
        insert_ascending(s, x).last() == (if s.len() == 0 || s.last() <= x { x } else { s.last() }),
    decreases s.len(),
{
    if s.len() == 0 || s.last() <= x {
    } else {
        let t = s.drop_last();
        lemma_insert_ascending(t, x);
        assert(s == t.push(s.last()));
        assert(insert_ascending(s, x).to_multiset() =~= s.to_multiset().insert(x));
        let u = insert_ascending(t, x);
        assert forall|i: int, j: int| 0 <= i <= j < u.push(s.last()).len() implies u.push(s.last())[i] <= u.push(
            s.last(),
        )[j] by {
            if i < u.len() {
                assert(u[i] <= u.last());
            }
        }
    }
}

/// `ascending` orders its argument and neither drops nor adds a number.
pub proof fn lemma_ascending(s: Seq<nat>)
    ensures
        is_ascending(ascending(s)),
        ascending(s).to_multiset() == s.to_multiset(),
        ascending(s).len() == s.len(),
    decreases s.len(),
{
    if s.len() > 0 {
        lemma_ascending(s.drop_last());
        lemma_insert_ascending(ascending(s.drop_last()), s.last());
        assert(s == s.drop_last().push(s.last()));
    }
}

/// There is one ascending arrangement of given numbers.
pub proof fn lemma_ascending_unique(s: Seq<nat>, t: Seq<nat>)
    requires
        is_ascending(s),
        is_ascending(t),
        s.to_multiset() == t.to_multiset(),
    ensures
        s == t,
    decreases s.len(),
{
    s.to_multiset_ensures();
    t.to_multiset_ensures();
    if s.len() > 0 {
        let x = s.last();
        let y = t.last();
        assert(s.to_multiset().count(x) > 0);
        assert(t.to_multiset().count(y) > 0);
        assert(t.contains(x));
        assert(s.contains(y));
        assert(x <= y);
        assert(y <= x);
        assert(s.drop_last() == s.remove(s.len() - 1));
        assert(t.drop_last() == t.remove(t.len() - 1));
        lemma_ascending_unique(s.drop_last(), t.drop_last());
        assert(s == s.drop_last().push(x));
        assert(t == t.drop_last().push(y));
    }
}

/// The arrangement of the numbers of `s` that `t` gives, where `t` is ascending.
pub proof fn lemma_ascending_is(s: Seq<nat>, t: Seq<nat>)
    requires
        is_ascending(t),
        s.to_multiset() == t.to_multiset(),
    ensures
        ascending(s) == t,
{
    lemma_ascending(s);
    lemma_ascending_unique(ascending(s), t);
}

fn merge(a: &Vec<Duration>, b: &Vec<Duration>) -> (r: Vec<Duration>)
    requires
        is_ascending(nanos_of(a@)),
        is_ascending(nanos_of(b@)),
    ensures
        is_ascending(nanos_of(r@)),
        nanos_of(r@).to_multiset() == nanos_of(a@).to_multiset().add(nanos_of(b@).to_multiset()),
{
    let mut r: Vec<Duration> = Vec::new();
    let mut i: usize = 0;
    let mut j: usize = 0;
    let ghost na = nanos_of(a@);
    let ghost nb = nanos_of(b@);
    assert(na.take(0) == Seq::<nat>::empty());
    assert(nb.take(0) == Seq::<nat>::empty());
    assert(nanos_of(r@) == Seq::<nat>::empty());
    assert(nanos_of(r@).to_multiset() =~= na.take(0).to_multiset().add(nb.take(0).to_multiset()));
    while i < a.len() || j < b.len()
        invariant
            i <= a.len(),
            j <= b.len(),
            na == nanos_of(a@),
            nb == nanos_of(b@),
            is_ascending(na),
            is_ascending(nb),
            is_ascending(nanos_of(r@)),
            nanos_of(r@).to_multiset() == na.take(i as int).to_multiset().add(nb.take(j as int).to_multiset()),
            r.len() > 0 && i < a.len() ==> nanos_of(r@).last() <= na[i as int],
            r.len() > 0 && j < b.len() ==> nanos_of(r@).last() <= nb[j as int],
        decreases a.len() - i + b.len() - j,
    {
        let from_a: bool = if i < a.len() && j < b.len() {
            a[i].as_nanos() <= b[j].as_nanos()
        } else {
            i < a.len()
        };
        let ghost before = nanos_of(r@);
        if from_a {
            r.push(a[i]);
            proof {
                assert(nanos_of(r@) == before.push(na[i as int]));
                assert(na.take(i + 1) == na.take(i as int).push(na[i as int]));
                assert(nanos_of(r@).to_multiset() =~= na.take(i + 1).to_multiset().add(
                    nb.take(j as int).to_multiset(),
                ));
            }
            i = i + 1;
        } else {
            r.push(b[j]);
            proof {
                assert(nanos_of(r@) == before.push(nb[j as int]));
                assert(nb.take(j + 1) == nb.take(j as int).push(nb[j as int]));
                assert(nanos_of(r@).to_multiset() =~= na.take(i as int).to_multiset().add(
                    nb.take(j + 1).to_multiset(),
                ));
            }
            j = j + 1;
        }
    }
    assert(na.take(a.len() as int) == na);
    assert(nb.take(b.len() as int) == nb);
    r
}

fn slice(v: &Vec<Duration>, from: usize, to: usize) -> (r: Vec<Duration>)
    requires
        from <= to <= v.len(),
    ensures
        r@ == v@.subrange(from as int, to as int),
{
    let mut r: Vec<Duration> = Vec::new();
    let mut i: usize = from;
    while i < to
        invariant
            from <= i <= to <= v.len(),
            r@ == v@.subrange(from as int, i as int),
        decreases to - i,
    {
        r.push(v[i]);
        i = i + 1;
    }
    r
}

/// The lengths of time in ascending order.
pub fn sort_durations(v: &Vec<Duration>) -> (r: Vec<Duration>)
    ensures
        nanos_of(r@) == ascending(nanos_of(v@)),
        r.len() == v.len(),
    decreases v.len(),
{
    if v.len() <= 1 {
        let r = slice(v, 0, v.len());
        proof {
            assert(r@ == v@);
            lemma_ascending_is(nanos_of(v@), nanos_of(r@));
        }
        r
    } else {
        let mid: usize = v.len() / 2;
        let left = slice(v, 0, mid);
        let right = slice(v, mid, v.len());
        let a = sort_durations(&left);
        let b = sort_durations(&right);
        proof {
            lemma_ascending(nanos_of(left@));
            lemma_ascending(nanos_of(right@));
        }
        let r = merge(&a, &b);
        proof {
            let s = nanos_of(v@);
            assert(s == nanos_of(left@) + nanos_of(right@));
            vstd::seq_lib::lemma_multiset_commutative(nanos_of(left@), nanos_of(right@));
            lemma_ascending_is(s, nanos_of(r@));
            lemma_ascending(s);
        }
        r
    }
}

/// `a` stands before `b` in the order of their characters.
pub open spec fn text_below(a: Seq<char>, b: Seq<char>) -> bool
    decreases a.len(),
{
    if b.len() == 0 {
        false
    } else if a.len() == 0 {
        true
    } else if a[0] != b[0] {
        a[0] < b[0]
    } else {
        text_below(a.drop_first(), b.drop_first())
    }
}

pub proof fn lemma_text_total(a: Seq<char>, b: Seq<char>)
    ensures
        !(text_below(a, b) && text_below(b, a)),
        text_below(a, b) || text_below(b, a) <==> a != b,
    decreases a.len(),
{
    if a.len() > 0 && b.len() > 0 {
        lemma_text_total(a.drop_first(), b.drop_first());
        if a[0] == b[0] && a.drop_first() == b.drop_first() {
            assert(a =~= seq![a[0]] + a.drop_first());
            assert(b =~= seq![b[0]] + b.drop_first());
        }
    } else if a.len() == 0 && b.len() == 0 {
        assert(a =~= b);
    }
}

proof fn lemma_text_transitive(a: Seq<char>, b: Seq<char>, c: Seq<char>)
    requires
        text_below(a, b),
        text_below(b, c),
    ensures
        text_below(a, c),
    decreases a.len(),
{
    if a.len() > 0 && b.len() > 0 && c.len() > 0 && a[0] == b[0] && b[0] == c[0] {
        lemma_text_transitive(a.drop_first(), b.drop_first(), c.drop_first());
    }
}

/// Whether `a` stands before `b` in the order of their characters.
pub fn comes_first(a: &str, b: &str) -> (r: bool)
    ensures
        r == text_below(a@, b@),
{
    let x = chars_of(a);
    let y = chars_of(b);
    let mut i: usize = 0;
    assert(x@.skip(0) == a@);
    assert(y@.skip(0) == b@);
    while i < x.len() && i < y.len()
        invariant
            i <= x.len(),
            i <= y.len(),
            text_below(a@, b@) == text_below(x@.skip(i as int), y@.skip(i as int)),
        decreases x.len() - i,
    {
        if x[i] != y[i] {
            return x[i] < y[i];
        }
        assert(x@.skip(i as int).drop_first() == x@.skip(i + 1));
        assert(y@.skip(i as int).drop_first() == y@.skip(i + 1));
        i = i + 1;
    }
    i == x.len() && i < y.len()
}

/// What a table is sorted by: a number or a text for each row.
pub enum Keys {
    Numbers(Seq<int>),
    Texts(Seq<Seq<char>>),
}

impl Keys {
    /// The number of rows.
    pub open spec fn rows(self) -> nat {
        match self {
            Keys::Numbers(v) => v.len(),
            Keys::Texts(v) => v.len(),
        }
    }

    /// Row `i` has a lower entry than row `j`.
    pub open spec fn lower(self, i: int, j: int) -> bool {
        match self {
            Keys::Numbers(v) => v[i] < v[j],
            Keys::Texts(v) => text_below(v[i], v[j]),
        }
    }

    /// Row `i` belongs before row `j`: its entry is lower, or not higher and it stands before.
    pub open spec fn before(self, i: int, j: int) -> bool {
        self.lower(i, j) || (!self.lower(j, i) && i < j)
    }

    /// `order` lists every row once, each where it belongs.
    pub open spec fn sorts(self, order: Seq<usize>) -> bool {
        &&& order.len() == self.rows()
        &&& forall|k: int| 0 <= k < order.len() ==> #[trigger] order[k] < self.rows()
        &&& forall|i: usize| i < self.rows() ==> #[trigger] order.contains(i)
        &&& forall|a: int, b: int|
            0 <= a < b < order.len() ==> self.before(#[trigger] order[a] as int, #[trigger] order[b] as int)
    }

    proof fn lemma_before_transitive(self, i: int, j: int, k: int)
        requires
            0 <= i < self.rows(),
            0 <= j < self.rows(),
            0 <= k < self.rows(),
            self.before(i, j),
            self.before(j, k),
        ensures
            self.before(i, k),
    {
        match self {
            Keys::Numbers(v) => {},
            Keys::Texts(v) => {
                let a = v[i];
                let b = v[j];
                let c = v[k];
                lemma_text_total(a, b);
                lemma_text_total(b, c);
                lemma_text_total(a, c);
                if text_below(a, b) && text_below(b, c) {
                    lemma_text_transitive(a, b, c);
                }
            },
        }
    }
}

/// A column of a table: a number or a text for each row.
pub enum Column {
    Numbers(Vec<i128>),
    Texts(Vec<String>),
}

impl View for Column {
    type V = Keys;

    open spec fn view(&self) -> Keys {
        match self {
            Column::Numbers(v) => Keys::Numbers(v@.map_values(|n: i128| n as int)),
            Column::Texts(v) => Keys::Texts(texts(v@)),
        }
    }
}

impl Column {
    fn is_lower(&self, i: usize, j: usize) -> (r: bool)
        requires
            i < self@.rows(),
            j < self@.rows(),
        ensures
            r == self@.lower(i as int, j as int),
    {
        match self {
            Column::Numbers(v) => v[i] < v[j],
            Column::Texts(v) => comes_first(v[i].as_str(), v[j].as_str()),
        }
    }

    fn row_count(&self) -> (r: usize)
        ensures
            r == self@.rows(),
    {
        match self {
            Column::Numbers(v) => v.len(),
            Column::Texts(v) => v.len(),
        }
    }

    /// The rows in ascending order of their entries, rows with equal entries as they stand.
    pub fn sort_order(&self) -> (r: Vec<usize>)
        ensures
            self@.sorts(r@),
    {
        let n: usize = self.row_count();
        let mut r: Vec<usize> = Vec::new();
        let mut i: usize = 0;
        while i < n
            invariant
                i <= n,
                n == self@.rows(),
                r@.len() == i,
                forall|k: int| 0 <= k < r@.len() ==> #[trigger] r@[k] < i,
                forall|j: usize| j < i ==> #[trigger] r@.contains(j),
                forall|a: int, b: int|
                    0 <= a < b < r@.len() ==> self@.before(#[trigger] r@[a] as int, #[trigger] r@[b] as int),
            decreases n - i,
        {
            let mut p: usize = r.len();
            while p > 0 && self.is_lower(i, r[p - 1])
                invariant
                    p <= r@.len(),
                    i < n,
                    n == self@.rows(),
                    r@.len() == i,
                    forall|k: int| 0 <= k < r@.len() ==> #[trigger] r@[k] < i,
                    forall|k: int| p <= k < r@.len() ==> self@.lower(i as int, #[trigger] r@[k] as int),
                decreases p,
            {
                p = p - 1;
            }
            let ghost old_order = r@;
            proof {
                assert forall|k: int| 0 <= k < p implies self@.before(#[trigger] old_order[k] as int, i as int) by {
                    let q = old_order[p - 1] as int;
                    assert(self@.before(q, i as int)) by {
                        assert(q < i);
                    }
                    if k < p - 1 {
                        assert(self@.before(old_order[k] as int, q));
                        self@.lemma_before_transitive(old_order[k] as int, q, i as int);
                    }
                }
            }
            r.insert(p, i);
            proof {
                assert forall|a: int, b: int| 0 <= a < b < r@.len() implies self@.before(
                    #[trigger] r@[a] as int,
                    #[trigger] r@[b] as int,
                ) by {
                    let x = if a < p {
                        a
                    } else {
                        a - 1
                    };
                    let y = if b < p {
                        b
                    } else {
                        b - 1
                    };
                    if a != p {
                        assert(r@[a] == old_order[x]);
                    }
                    if b != p {
                        assert(r@[b] == old_order[y]);
                    }
                    if a == p {
                        assert(self@.lower(i as int, old_order[y] as int));
                    } else if b == p {
                        assert(self@.before(old_order[x] as int, i as int));
                    } else {
                        assert(self@.before(old_order[x] as int, old_order[y] as int));
                    }
                }
                assert forall|j: usize| j < i + 1 implies #[trigger] r@.contains(j) by {
                    if j == i {
                        assert(r@[p as int] == i);
                    } else {
                        assert(old_order.contains(j));
                        let k = choose|k: int| 0 <= k < old_order.len() && old_order[k] == j;
                        if k < p {
                            assert(r@[k] == old_order[k]);
                        } else {
                            assert(r@[k + 1] == old_order[k]);
                        }
                    }
                }
                assert forall|k: int| 0 <= k < r@.len() implies #[trigger] r@[k] < i + 1 by {
                    if k < p {
                        assert(r@[k] == old_order[k]);
                    } else if k > p {
                        assert(r@[k] == old_order[k - 1]);
                    }
                }
            }
            i = i + 1;
        }
        r
    }
}

/// There is one sort order: no two orders sort by the same keys.
pub proof fn law_sort_order_is_unique(c: Keys, x: Seq<usize>, y: Seq<usize>)
    requires
        c.sorts(x),
        c.sorts(y),
    ensures
        x == y,
{
    lemma_orders_agree(c, x, y, x.len());
    assert(x =~= y);
}

proof fn lemma_never_mutual(c: Keys, i: int, j: int)
    requires
        0 <= i < c.rows(),
        0 <= j < c.rows(),
    ensures
        !(c.before(i, j) && c.before(j, i)),
{
    match c {
        Keys::Numbers(v) => {},
        Keys::Texts(v) => {
            lemma_text_total(v[i], v[j]);
        },
    }
}

proof fn lemma_orders_agree(c: Keys, x: Seq<usize>, y: Seq<usize>, n: nat)
    requires
        c.sorts(x),
        c.sorts(y),
        n <= x.len(),
    ensures
        forall|k: int| 0 <= k < n ==> x[k] == y[k],
    decreases n,
{
    if n > 0 {
        let m = n - 1;
        lemma_orders_agree(c, x, y, m as nat);
        if x[m] != y[m] {
            lemma_place_after(c, x, y, m);
            lemma_place_after(c, y, x, m);
            lemma_never_mutual(c, x[m] as int, y[m] as int);
        }
    }
}

/// Where two orders agree up to a place and differ there, the row that the second has there
/// comes later in the first.
proof fn lemma_place_after(c: Keys, x: Seq<usize>, y: Seq<usize>, m: int)
    requires
        c.sorts(x),
        c.sorts(y),
        0 <= m < x.len(),
        forall|k: int| 0 <= k < m ==> x[k] == y[k],
        x[m] != y[m],
    ensures
        c.before(x[m] as int, y[m] as int),
{
    let row = y[m];
    assert(row < c.rows());
    assert(x.contains(row));
    let p = choose|p: int| 0 <= p < x.len() && x[p] == row;
    if p < m {
        assert(x[p] == y[p]);
        assert(c.before(y[p] as int, y[m] as int));
        lemma_never_mutual(c, row as int, row as int);
    }
    assert(c.before(x[m] as int, x[p] as int));
}

/// The elements of `s` at the places that `order` lists.
pub open spec fn picked<T>(s: Seq<T>, order: Seq<usize>) -> Seq<T> {
    Seq::new(order.len(), |k: int| s[order[k] as int])
}

/// `order` lists every number below `n` once.
spec fn lists_all(order: Seq<usize>, n: nat) -> bool {
    &&& order.len() == n
    &&& forall|k: int| 0 <= k < n ==> #[trigger] order[k] < n
    &&& forall|i: usize| i < n ==> #[trigger] order.contains(i)
    &&& forall|a: int, b: int| 0 <= a < b < n ==> #[trigger] order[a] != #[trigger] order[b]
}

proof fn lemma_picked_permutes<T>(s: Seq<T>, order: Seq<usize>)
    requires
        lists_all(order, s.len()),
        s.len() <= usize::MAX,
    ensures
        picked(s, order).to_multiset() == s.to_multiset(),
    decreases s.len(),
{
    let r = picked(s, order);
    if s.len() == 0 {
        assert(r =~= s);
    } else {
        let m = (s.len() - 1) as usize;
        assert(order.contains(m));
        let p = choose|p: int| 0 <= p < order.len() && order[p] == m;
        let rest = order.remove(p);
        let front = s.drop_last();
        assert forall|k: int| 0 <= k < m implies #[trigger] rest[k] < m by {
            if k < p {
                assert(rest[k] == order[k]);
            } else {
                assert(rest[k] == order[k + 1]);
            }
        }
        assert forall|i: usize| i < m implies #[trigger] rest.contains(i) by {
            assert(order.contains(i));
            let k = choose|k: int| 0 <= k < order.len() && order[k] == i;
            if k < p {
                assert(rest[k] == i);
            } else {
                assert(rest[k - 1] == i);
            }
        }
        assert forall|a: int, b: int| 0 <= a < b < m implies #[trigger] rest[a] != #[trigger] rest[b] by {
            let x = if a < p {
                a
            } else {
                a + 1
            };
            let y = if b < p {
                b
            } else {
                b + 1
            };
            assert(rest[a] == order[x] && rest[b] == order[y]);
        }
        lemma_picked_permutes(front, rest);
        assert(picked(front, rest) =~= r.remove(p));
        r.to_multiset_ensures();
        s.to_multiset_ensures();
        assert(s =~= front.push(s.last()));
        front.to_multiset_ensures();
        assert(r.to_multiset() =~= r.remove(p).to_multiset().insert(r[p]));
        assert(s.to_multiset() =~= front.to_multiset().insert(s.last()));
    }
}

/// The rows of a table in sort order are the rows of the table.
pub proof fn lemma_sorted_permutes<T>(s: Seq<T>, keys: Keys, order: Seq<usize>)
    requires
        keys.sorts(order),
        keys.rows() == s.len(),
        s.len() <= usize::MAX,
    ensures
        picked(s, order).to_multiset() == s.to_multiset(),
{
    assert forall|a: int, b: int| 0 <= a < b < order.len() implies #[trigger] order[a] != #[trigger] order[b] by {
        assert(keys.before(order[a] as int, order[b] as int));
        lemma_never_mutual(keys, order[a] as int, order[b] as int);
    }
    lemma_picked_permutes(s, order);
}

/// A text stands before another exactly where, behind what both begin with, it ends or has the lower
/// character.
pub proof fn law_text_order(a: Seq<char>, b: Seq<char>)
    ensures
        text_below(a, b) <==> exists|k: int|
            0 <= k <= a.len() && k < b.len() && #[trigger] a.take(k) == b.take(k) && (k == a.len() || a[k] < b[k]),
    decreases a.len(),
{
    if b.len() == 0 {
    } else if a.len() == 0 {
        assert(a.take(0) =~= b.take(0));
    } else if a[0] != b[0] {
        if a[0] < b[0] {
            assert(a.take(0) =~= b.take(0));
        }
        if exists|k: int|
            0 <= k <= a.len() && k < b.len() && #[trigger] a.take(k) == b.take(k) && (k == a.len() || a[k] < b[k]) {
            let k = choose|k: int|
                0 <= k <= a.len() && k < b.len() && #[trigger] a.take(k) == b.take(k) && (k == a.len() || a[k] < b[k]);
            if k > 0 {
                assert(a.take(k)[0] == b.take(k)[0]);
            }
        }
    } else {
        let x = a.drop_first();
        let y = b.drop_first();
        law_text_order(x, y);
        if text_below(x, y) {
            let k = choose|k: int|
                0 <= k <= x.len() && k < y.len() && #[trigger] x.take(k) == y.take(k) && (k == x.len() || x[k] < y[k]);
            assert(a.take(k + 1) =~= b.take(k + 1)) by {
                assert forall|i: int| 0 <= i < k + 1 implies a[i] == b[i] by {
                    if i > 0 {
                        assert(x.take(k)[i - 1] == y.take(k)[i - 1]);
                    }
                }
            }
        }
        if exists|k: int|
            0 <= k <= a.len() && k < b.len() && #[trigger] a.take(k) == b.take(k) && (k == a.len() || a[k] < b[k]) {
            let k = choose|k: int|
                0 <= k <= a.len() && k < b.len() && #[trigger] a.take(k) == b.take(k) && (k == a.len() || a[k] < b[k]);
            assert(k > 0);
            assert(x.take(k - 1) =~= y.take(k - 1)) by {
                assert forall|i: int| 0 <= i < k - 1 implies x[i] == y[i] by {
                    assert(a.take(k)[i + 1] == b.take(k)[i + 1]);
                }
            }
        }
    }
}

/// A sort order lists every row exactly once. Of two rows the one with the lower number stands first,
/// and of two with the same number the one that stood first.
pub proof fn law_sort_order_by_numbers(v: Seq<int>, order: Seq<usize>, a: int, b: int)
    requires
        Keys::Numbers(v).sorts(order),
        0 <= a < b < order.len(),
    ensures
        order.len() == v.len(),
        order[a] < v.len() && order[b] < v.len() && order[a] != order[b],
        v[order[a] as int] <= v[order[b] as int],
        v[order[a] as int] == v[order[b] as int] ==> order[a] < order[b],
        forall|i: usize| i < v.len() ==> #[trigger] order.contains(i),
{
    assert(Keys::Numbers(v).before(order[a] as int, order[b] as int));
}

} // verus!
