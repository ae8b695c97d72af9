//! Counts by name, kept in the order of the names.

use vstd::prelude::*;

use crate::order;
use crate::order::Place;
use crate::strs;

verus! {

/// How often each name occurred.
#[derive(Debug)]
pub struct Counts {
    keys: Vec<String>,
    counts: Vec<u64>,
}

/// The count of a name, zero where there is none.
pub open spec fn count_of(m: Map<Seq<char>, nat>, k: Seq<char>) -> nat {
    if m.dom().contains(k) {
        m[k]
    } else {
        0
    }
}

/// The counts after a name occurred once more.
pub open spec fn counted(m: Map<Seq<char>, nat>, k: Seq<char>) -> Map<Seq<char>, nat> {
    m.insert(k, count_of(m, k) + 1)
}

pub open spec fn names(list: Seq<(Seq<char>, nat)>) -> Seq<Seq<char>> {
    list.map_values(|e: (Seq<char>, nat)| e.0)
}

/// The list holds every name of the map with its count, in order.
pub open spec fn lists(list: Seq<(Seq<char>, nat)>, m: Map<Seq<char>, nat>) -> bool {
    &&& order::increasing(names(list))
    &&& forall|k: Seq<char>| #[trigger] m.dom().contains(k) <==> names(list).contains(k)
    &&& forall|i: int| 0 <= i < list.len() ==> m[(#[trigger] list[i]).0] == list[i].1
}

/// The texts and numbers of a list.
pub open spec fn entries_of(v: Seq<(String, u64)>) -> Seq<(Seq<char>, nat)> {
    v.map_values(|e: (String, u64)| (e.0@, e.1 as nat))
}

/// The numbers at the positions of the names.
spec fn tallied(keys: Seq<Seq<char>>, counts: Seq<u64>) -> Map<Seq<char>, nat> {
    Map::new(|k: Seq<char>| keys.contains(k), |k: Seq<char>| counts[keys.index_of(k)] as nat)
}

impl View for Counts {
    type V = Map<Seq<char>, nat>;

    closed spec fn view(&self) -> Map<Seq<char>, nat> {
        tallied(strs::texts(self.keys@), self.counts@)
    }
}

impl Counts {
    #[verifier::type_invariant]
    closed spec fn in_order(self) -> bool {
        self.keys@.len() == self.counts@.len() && order::increasing(strs::texts(self.keys@))
    }

    /// The names and counts in order.
    pub closed spec fn list(self) -> Seq<(Seq<char>, nat)> {
        Seq::new(self.keys@.len(), |i: int| (self.keys@[i]@, self.counts@[i] as nat))
    }

    pub fn new() -> (r: Self)
        ensures
            r@ == Map::<Seq<char>, nat>::empty(),
    {
        let r: Counts = Counts { keys: Vec::new(), counts: Vec::new() };
        assert(r@ =~= Map::<Seq<char>, nat>::empty());
        r
    }

    /// Where a name stands, or would stand; and whether it is there.
    fn position(&self, key: &str) -> (r: (usize, bool))
        ensures
            r.0 <= self.keys@.len(),
            r.1 <==> r.0 < self.keys@.len() && self.keys@[r.0 as int]@ == key@,
            r.1 <==> strs::texts(self.keys@).contains(key@),
            forall|i: int| 0 <= i < r.0 ==> order::precedes(#[trigger] self.keys@[i]@, key@),
            forall|i: int|
                r.0 <= i < self.keys@.len() && !r.1 ==> order::precedes(
                    key@,
                    #[trigger] self.keys@[i]@,
                ),
    {
        proof {
            use_type_invariant(self);
        }
        let ghost texts = strs::texts(self.keys@);
        let mut lo: usize = 0;
        let mut hi: usize = self.keys.len();
        while lo < hi
            invariant
                texts == strs::texts(self.keys@),
                order::increasing(texts),
                lo <= hi <= self.keys@.len(),
                forall|i: int| 0 <= i < lo ==> order::precedes(#[trigger] self.keys@[i]@, key@),
                forall|i: int|
                    hi <= i < self.keys@.len() ==> order::precedes(key@, #[trigger] self.keys@[i]@),
            decreases hi - lo,
        {
            let mid: usize = lo + (hi - lo) / 2;
            assert(texts[mid as int] == self.keys@[mid as int]@);
            match order::place(self.keys[mid].as_str(), key) {
                Place::Same => {
                    assert(texts[mid as int] == key@);
                    assert forall|i: int| 0 <= i < mid implies order::precedes(
                        #[trigger] self.keys@[i]@,
                        key@,
                    ) by {
                        assert(order::precedes(texts[i], texts[mid as int]));
                    }
                    return (mid, true);
                },
                Place::Before => {
                    assert forall|i: int| 0 <= i < mid + 1 implies order::precedes(
                        #[trigger] self.keys@[i]@,
                        key@,
                    ) by {
                        if i < mid {
                            assert(order::precedes(texts[i], texts[mid as int]));
                            order::law_order(texts[i], texts[mid as int], key@);
                        }
                    }
                    lo = mid + 1;
                },
                Place::After => {
                    assert forall|i: int| mid <= i < self.keys@.len() implies order::precedes(
                        key@,
                        #[trigger] self.keys@[i]@,
                    ) by {
                        if mid < i {
                            assert(order::precedes(texts[mid as int], texts[i]));
                            order::law_order(key@, texts[mid as int], texts[i]);
                        }
                    }
                    hi = mid;
                },
            }
        }
        proof {
            order::law_order(key@, key@, key@);
            if texts.contains(key@) {
                let i = choose|i: int| 0 <= i < texts.len() && texts[i] == key@;
                assert(self.keys@[i]@ == key@);
            }
        }
        (lo, false)
    }

    /// The count of a name.
    pub fn get(&self, key: &str) -> (r: Option<u64>)
        ensures
            r is Some <==> self@.dom().contains(key@),
            r matches Some(n) ==> n == self@[key@],
    {
        proof {
            use_type_invariant(self);
        }
        let (at, there): (usize, bool) = self.position(key);
        if there {
            proof {
                lemma_index(strs::texts(self.keys@), at as int);
            }
            Some(self.counts[at])
        } else {
            None
        }
    }

    pub fn is_empty(&self) -> (r: bool)
        ensures
            r <==> self@ == Map::<Seq<char>, nat>::empty(),
    {
        proof {
            use_type_invariant(self);
            if self.keys@.len() == 0 {
                assert(self@ =~= Map::<Seq<char>, nat>::empty());
            } else {
                assert(strs::texts(self.keys@)[0] == self.keys@[0]@);
                assert(self@.dom().contains(self.keys@[0]@));
            }
        }
        self.keys.len() == 0
    }

    /// Count a name once more.
    pub fn bump(&mut self, key: &str)
        requires
            count_of(old(self)@, key@) < u64::MAX,
        ensures
            final(self)@ == counted(old(self)@, key@),
    {
        proof {
            use_type_invariant(&*self);
        }
        let (at, there): (usize, bool) = self.position(key);
        let ghost before = strs::texts(self.keys@);
        let ghost numbers = self.counts@;
        let mut whole: Counts = Counts::new();
        core::mem::swap(self, &mut whole);
        let mut keys: Vec<String> = whole.keys;
        let mut counts: Vec<u64> = whole.counts;
        if there {
            proof {
                lemma_index(before, at as int);
            }
            let n: u64 = counts[at];
            counts[at] = n + 1;
        } else {
            keys.insert(at, key.to_owned());
            counts.insert(at, 1);
        }
        proof {
            let after = strs::texts(keys@);
            assert(after =~= if there {
                before
            } else {
                before.insert(at as int, key@)
            });
            assert forall|i: int, j: int| 0 <= i < j < after.len() implies order::precedes(
                #[trigger] after[i],
                #[trigger] after[j],
            ) by {
                if !there {
                    if i == at {
                        assert(after[j] == before[j - 1]);
                    } else if j == at {
                        assert(after[i] == before[i]);
                    } else {
                        let a = if i < at {
                            i
                        } else {
                            i - 1
                        };
                        let b = if j < at {
                            j
                        } else {
                            j - 1
                        };
                        assert(after[i] == before[a] && after[j] == before[b]);
                    }
                }
            }
            lemma_counted(before, numbers, at as int, there, key@, after, counts@);
        }
        *self = Counts { keys, counts };
    }

    /// The names and counts in order.
    pub fn entries(&self) -> (r: Vec<(String, u64)>)
        ensures
            entries_of(r@) == self.list(),
            lists(self.list(), self@),
    {
        proof {
            use_type_invariant(self);
            lemma_listed(*self);
        }
        let mut out: Vec<(String, u64)> = Vec::new();
        for i in 0..self.keys.len()
            invariant
                self.keys@.len() == self.counts@.len(),
                entries_of(out@) == self.list().take(i as int),
        {
            let ghost seen = out@;
            out.push((self.keys[i].as_str().to_owned(), self.counts[i]));
            assert(entries_of(out@) =~= entries_of(seen).push(self.list()[i as int]));
            assert(entries_of(out@) =~= self.list().take(i + 1));
        }
        assert(entries_of(out@) =~= self.list());
        out
    }
}

/// In an increasing list a text has one position.
proof fn lemma_index(texts: Seq<Seq<char>>, at: int)
    requires
        order::increasing(texts),
        0 <= at < texts.len(),
    ensures
        texts.contains(texts[at]),
        texts.index_of(texts[at]) == at,
{
    let i = texts.index_of(texts[at]);
    assert(0 <= i < texts.len() && texts[i] == texts[at]);
    order::law_order(texts[at], texts[at], texts[at]);
    if i < at {
        assert(order::precedes(texts[i], texts[at]));
    }
    if at < i {
        assert(order::precedes(texts[at], texts[i]));
    }
}

proof fn lemma_counted(
    before: Seq<Seq<char>>,
    numbers: Seq<u64>,
    at: int,
    there: bool,
    key: Seq<char>,
    after: Seq<Seq<char>>,
    counts: Seq<u64>,
)
    requires
        order::increasing(before),
        order::increasing(after),
        before.len() == numbers.len(),
        0 <= at <= before.len(),
        there ==> at < before.len() && before[at] == key && after == before && numbers[at]
            < u64::MAX && counts == numbers.update(at, (numbers[at] + 1) as u64),
        !there ==> !before.contains(key) && after == before.insert(at, key) && counts
            == numbers.insert(at, 1),
    ensures
        tallied(after, counts) == counted(tallied(before, numbers), key),
{
    let (m, r) = (tallied(before, numbers), tallied(after, counts));
    assert(after[at] == key);
    lemma_index(after, at);
    if there {
        lemma_index(before, at);
    }
    assert forall|k: Seq<char>| #[trigger] r.dom().contains(k) <==> m.dom().contains(k) || k
        == key by {
        if !there {
            if before.contains(k) {
                let i = choose|i: int| 0 <= i < before.len() && before[i] == k;
                let j = if i < at {
                    i
                } else {
                    i + 1
                };
                assert(after[j] == k);
            }
            if after.contains(k) && k != key {
                let j = choose|j: int| 0 <= j < after.len() && after[j] == k;
                let i = if j < at {
                    j
                } else {
                    j - 1
                };
                assert(before[i] == k);
            }
        }
    }
    assert forall|k: Seq<char>| m.dom().contains(k) && k != key implies r[k] == m[k] by {
        let i = before.index_of(k);
        assert(before[i] == k);
        let j = if there || i < at {
            i
        } else {
            i + 1
        };
        assert(after[j] == k);
        lemma_index(after, j);
    }
    assert(r =~= counted(m, key));
}

proof fn lemma_listed(c: Counts)
    requires
        c.in_order(),
    ensures
        lists(c.list(), c@),
{
    let texts = strs::texts(c.keys@);
    assert(names(c.list()) =~= texts);
    assert forall|i: int| 0 <= i < c.list().len() implies c@[(#[trigger] c.list()[i]).0]
        == c.list()[i].1 by {
        lemma_index(texts, i);
    }
}

/// A ranked list with one more entry: after those that count as much, before
/// those that count less.
pub open spec fn ranked_in(v: Seq<(Seq<char>, nat)>, e: (Seq<char>, nat)) -> Seq<(Seq<char>, nat)>
    decreases v.len(),
{
    if v.len() == 0 || v.last().1 >= e.1 {
        v.push(e)
    } else {
        ranked_in(v.drop_last(), e).push(v.last())
    }
}

/// The entries from the largest count to the smallest; those that count the
/// same stay in their order.
pub open spec fn ranked(list: Seq<(Seq<char>, nat)>) -> Seq<(Seq<char>, nat)>
    decreases list.len(),
{
    if list.len() == 0 {
        Seq::empty()
    } else {
        ranked_in(ranked(list.drop_last()), list.last())
    }
}

/// The first `n` of the ranked entries.
pub open spec fn top(list: Seq<(Seq<char>, nat)>, n: int) -> Seq<(Seq<char>, nat)> {
    if ranked(list).len() <= n {
        ranked(list)
    } else {
        ranked(list).take(n)
    }
}

/// Entries in falling order of count, and of equal count in rising order of
/// name.
pub open spec fn falling(v: Seq<(Seq<char>, nat)>) -> bool {
    forall|i: int, j: int|
        0 <= i < j < v.len() ==> (#[trigger] v[i]).1 > (#[trigger] v[j]).1 || (v[i].1 == v[j].1
            && order::precedes(v[i].0, v[j].0))
}

proof fn lemma_ranked_in(v: Seq<(Seq<char>, nat)>, e: (Seq<char>, nat))
    requires
        falling(v),
        forall|i: int| 0 <= i < v.len() ==> order::precedes((#[trigger] v[i]).0, e.0),
    ensures
        falling(ranked_in(v, e)),
        ranked_in(v, e).len() == v.len() + 1,
        forall|x: (Seq<char>, nat)| #[trigger]
            ranked_in(v, e).contains(x) <==> v.contains(x) || x == e,
    decreases v.len(),
{
    let r = ranked_in(v, e);
    if v.len() == 0 || v.last().1 >= e.1 {
        assert forall|x: (Seq<char>, nat)| #[trigger] r.contains(x) <==> v.contains(x) || x
            == e by {
            if v.contains(x) {
                let i = choose|i: int| 0 <= i < v.len() && v[i] == x;
                assert(r[i] == x);
            }
            assert(r[v.len() as int] == e);
        }
    } else {
        let init = v.drop_last();
        let p = ranked_in(init, e);
        lemma_ranked_in(init, e);
        assert forall|i: int| 0 <= i < p.len() implies (#[trigger] p[i]).1 > v.last().1 || (p[i].1
            == v.last().1 && order::precedes(p[i].0, v.last().0)) by {
            assert(p.contains(p[i]));
            if p[i] != e {
                let k = choose|k: int| 0 <= k < init.len() && init[k] == p[i];
                assert(v[k] == p[i]);
            }
        }
        assert forall|x: (Seq<char>, nat)| #[trigger] r.contains(x) <==> v.contains(x) || x
            == e by {
            if r.contains(x) {
                let i = choose|i: int| 0 <= i < r.len() && r[i] == x;
                if i < p.len() {
                    assert(p.contains(p[i]));
                    if x != e {
                        let k = choose|k: int| 0 <= k < init.len() && init[k] == x;
                        assert(v[k] == x);
                    }
                } else {
                    assert(v[v.len() - 1] == x);
                }
            }
            if v.contains(x) {
                let i = choose|i: int| 0 <= i < v.len() && v[i] == x;
                if i < init.len() {
                    assert(init[i] == x);
                    assert(p.contains(x));
                    let k = choose|k: int| 0 <= k < p.len() && p[k] == x;
                    assert(r[k] == x);
                } else {
                    assert(r[p.len() as int] == x);
                }
            }
            if x == e {
                assert(p.contains(e));
                let k = choose|k: int| 0 <= k < p.len() && p[k] == e;
                assert(r[k] == e);
            }
        }
    }
}

/// Ranking entries that stand in the order of their names loses none and adds
/// none; it puts the larger counts first, and equal counts in the order of
/// their names.
pub proof fn law_ranked(list: Seq<(Seq<char>, nat)>)
    requires
        order::increasing(names(list)),
    ensures
        falling(ranked(list)),
        ranked(list).len() == list.len(),
        forall|x: (Seq<char>, nat)| #[trigger] ranked(list).contains(x) <==> list.contains(x),
    decreases list.len(),
{
    if list.len() > 0 {
        let init = list.drop_last();
        assert(names(init) =~= names(list).drop_last());
        law_ranked(init);
        let p = ranked(init);
        assert forall|i: int| 0 <= i < p.len() implies order::precedes(
            (#[trigger] p[i]).0,
            list.last().0,
        ) by {
            assert(p.contains(p[i]));
            let k = choose|k: int| 0 <= k < init.len() && init[k] == p[i];
            assert(names(list)[k] == p[i].0);
            assert(names(list)[list.len() - 1] == list.last().0);
        }
        lemma_ranked_in(p, list.last());
        assert forall|x: (Seq<char>, nat)| #[trigger]
            ranked(list).contains(x) <==> list.contains(x) by {
            if list.contains(x) {
                let i = choose|i: int| 0 <= i < list.len() && list[i] == x;
                if i < init.len() {
                    assert(init[i] == x);
                }
            }
            if init.contains(x) {
                let i = choose|i: int| 0 <= i < init.len() && init[i] == x;
                assert(list[i] == x);
            }
            assert(list[list.len() - 1] == list.last());
        }
    }
}

fn rank_in(v: &mut Vec<(String, u64)>, e: (String, u64))
    ensures
        entries_of(final(v)@) == ranked_in(entries_of(old(v)@), (e.0@, e.1 as nat)),
{
    let ghost whole = entries_of(v@);
    let ghost x = (e.0@, e.1 as nat);
    let mut i: usize = v.len();
    assert(whole.take(i as int) =~= whole);
    assert(ranked_in(whole.take(i as int), x) + whole.skip(i as int) =~= ranked_in(whole, x));
    while i > 0 && v[i - 1].1 < e.1
        invariant
            v@ == old(v)@,
            i <= v@.len(),
            whole == entries_of(v@),
            x == (e.0@, e.1 as nat),
            ranked_in(whole.take(i as int), x) + whole.skip(i as int) == ranked_in(whole, x),
        decreases i,
    {
        let ghost t = whole.take(i as int);
        assert(t.drop_last() =~= whole.take(i - 1));
        assert(t.last() == whole[i - 1]);
        assert(ranked_in(t, x) + whole.skip(i as int) =~= ranked_in(whole.take(i - 1), x)
            + whole.skip(i - 1));
        i = i - 1;
    }
    proof {
        let t = whole.take(i as int);
        if i > 0 {
            assert(t.last() == whole[i - 1]);
        }
        assert(ranked_in(t, x) == t.push(x));
        assert(t.push(x) + whole.skip(i as int) =~= whole.insert(i as int, x));
    }
    v.insert(i, e);
    assert(entries_of(v@) =~= whole.insert(i as int, x));
}

/// The `n` names that count most, with their counts.
pub fn take_top(m: &Counts, n: usize) -> (r: Vec<(String, u64)>)
    ensures
        entries_of(r@) == top(m.list(), n as int),
        lists(m.list(), m@),
{
    let mut entries: Vec<(String, u64)> = m.entries();
    let ghost list = m.list();
    let mut todo: Vec<(String, u64)> = Vec::new();
    while entries.len() > 0
        invariant
            list.len() == entries@.len() + todo@.len(),
            entries_of(entries@) == list.take(entries@.len() as int),
            entries_of(todo@) == list.skip(entries@.len() as int).reverse(),
        decreases entries@.len(),
    {
        let ghost (a, b) = (entries_of(entries@), entries_of(todo@));
        match entries.pop() {
            Some(e) => {
                todo.push(e);
            },
            None => {},
        }
        assert(entries_of(entries@) =~= a.drop_last());
        assert(entries_of(todo@) =~= b.push(a.last()));
        assert(entries_of(todo@) =~= list.skip(entries@.len() as int).reverse());
    }
    let mut out: Vec<(String, u64)> = Vec::new();
    let ghost mut done: int = 0;
    assert(list.take(0) =~= Seq::<(Seq<char>, nat)>::empty());
    assert(entries_of(out@) =~= Seq::<(Seq<char>, nat)>::empty());
    while todo.len() > 0
        invariant
            0 <= done,
            done + todo@.len() == list.len(),
            entries_of(todo@) == list.skip(done).reverse(),
            entries_of(out@) == ranked(list.take(done)),
        decreases todo@.len(),
    {
        let ghost b = entries_of(todo@);
        match todo.pop() {
            Some(e) => {
                assert((e.0@, e.1 as nat) == b.last());
                assert(b.last() == list[done]);
                assert(list.take(done + 1).drop_last() =~= list.take(done));
                rank_in(&mut out, e);
            },
            None => {},
        }
        assert(entries_of(todo@) =~= b.drop_last());
        proof {
            done = done + 1;
        }
        assert(entries_of(todo@) =~= list.skip(done).reverse());
    }
    assert(list.take(done) =~= list);
    if out.len() > n {
        let ghost whole = out@;
        out.truncate(n);
        assert(entries_of(out@) =~= entries_of(whole).take(n as int));
    }
    out
}

} // verus!
