//! The order of texts, and what is kept in it: lists without repetition and
//! counts by name.

use vstd::prelude::*;

use crate::bytes;
use crate::strs;

verus! {

broadcast use vstd::utf8::group_utf8_lib;

/// Bytes come before others in the order of a dictionary.
pub open spec fn lex(a: Seq<u8>, b: Seq<u8>) -> bool
    decreases a.len(),
{
    if b.len() == 0 {
        false
    } else if a.len() == 0 {
        true
    } else {
        a[0] < b[0] || (a[0] == b[0] && lex(a.skip(1), b.skip(1)))
    }
}

/// Texts are ordered by their bytes in UTF-8.
pub open spec fn precedes(a: Seq<char>, b: Seq<char>) -> bool {
    lex(bytes::utf8(a), bytes::utf8(b))
}

/// Each text precedes the ones after it.
pub open spec fn increasing(v: Seq<Seq<char>>) -> bool {
    forall|i: int, j: int| 0 <= i < j < v.len() ==> precedes(#[trigger] v[i], #[trigger] v[j])
}

/// An increasing list with one more text, put in its place unless it is there.
pub open spec fn placed(v: Seq<Seq<char>>, x: Seq<char>) -> Seq<Seq<char>>
    decreases v.len(),
{
    if v.len() == 0 || precedes(v.last(), x) {
        v.push(x)
    } else if v.last() == x {
        v
    } else {
        placed(v.drop_last(), x).push(v.last())
    }
}

/// The texts of a list in order, each once.
pub open spec fn sorted_set(v: Seq<Seq<char>>) -> Seq<Seq<char>>
    decreases v.len(),
{
    if v.len() == 0 {
        Seq::empty()
    } else {
        placed(sorted_set(v.drop_last()), v.last())
    }
}

proof fn lemma_lex_irreflexive(a: Seq<u8>)
    ensures
        !lex(a, a),
    decreases a.len(),
{
    if a.len() > 0 {
        lemma_lex_irreflexive(a.skip(1));
    }
}

proof fn lemma_lex_transitive(a: Seq<u8>, b: Seq<u8>, c: Seq<u8>)
    requires
        lex(a, b),
        lex(b, c),
    ensures
        lex(a, c),
    decreases a.len(),
{
    if a.len() > 0 && a[0] == b[0] && b[0] == c[0] {
        lemma_lex_transitive(a.skip(1), b.skip(1), c.skip(1));
    }
}

proof fn lemma_lex_total(a: Seq<u8>, b: Seq<u8>)
    ensures
        lex(a, b) || a == b || lex(b, a),
    decreases a.len(),
{
    if a.len() == 0 || b.len() == 0 {
        if a.len() == b.len() {
            assert(a =~= b);
        }
    } else if a[0] == b[0] {
        lemma_lex_total(a.skip(1), b.skip(1));
        if a.skip(1) == b.skip(1) {
            assert(a =~= seq![a[0]] + a.skip(1));
            assert(b =~= seq![b[0]] + b.skip(1));
        }
    }
}

/// The order of texts is strict and total.
pub proof fn law_order(a: Seq<char>, b: Seq<char>, c: Seq<char>)
    ensures
        !precedes(a, a),
        precedes(a, b) && precedes(b, c) ==> precedes(a, c),
        precedes(a, b) || a == b || precedes(b, a),
        !(precedes(a, b) && precedes(b, a)),
{
    let (x, y, z) = (bytes::utf8(a), bytes::utf8(b), bytes::utf8(c));
    lemma_lex_irreflexive(x);
    if lex(x, y) && lex(y, z) {
        lemma_lex_transitive(x, y, z);
    }
    if lex(x, y) && lex(y, x) {
        lemma_lex_transitive(x, y, x);
    }
    lemma_lex_total(x, y);
    if x == y {
        vstd::utf8::encode_utf8_decode_utf8(a);
        vstd::utf8::encode_utf8_decode_utf8(b);
    }
}

proof fn lemma_placed(v: Seq<Seq<char>>, x: Seq<char>)
    requires
        increasing(v),
    ensures
        increasing(placed(v, x)),
        forall|y: Seq<char>| #[trigger] placed(v, x).contains(y) <==> v.contains(y) || y == x,
    decreases v.len(),
{
    let r = placed(v, x);
    if v.len() == 0 || precedes(v.last(), x) {
        assert forall|i: int, j: int| 0 <= i < j < r.len() implies precedes(
            #[trigger] r[i],
            #[trigger] r[j],
        ) by {
            if j == v.len() && i < v.len() - 1 {
                law_order(v[i], v.last(), x);
            }
        }
        assert(r[v.len() as int] == x);
        assert forall|y: Seq<char>| #[trigger] r.contains(y) <==> v.contains(y) || y == x by {
            if v.contains(y) {
                let i = choose|i: int| 0 <= i < v.len() && v[i] == y;
                assert(r[i] == y);
            }
        }
    } else if v.last() == x {
        assert(v[v.len() - 1] == x);
    } else {
        let init = v.drop_last();
        lemma_placed(init, x);
        let p = placed(init, x);
        law_order(v.last(), x, x);
        assert forall|i: int, j: int| 0 <= i < j < r.len() implies precedes(
            #[trigger] r[i],
            #[trigger] r[j],
        ) by {
            if j == p.len() {
                assert(p.contains(p[i]));
                if p[i] != x {
                    let k = choose|k: int| 0 <= k < init.len() && init[k] == p[i];
                    assert(v[k] == p[i]);
                }
            }
        }
        assert(r[p.len() as int] == v.last());
        assert forall|y: Seq<char>| #[trigger] r.contains(y) <==> v.contains(y) || y == x by {
            if r.contains(y) {
                let i = choose|i: int| 0 <= i < r.len() && r[i] == y;
                if i < p.len() {
                    assert(p.contains(p[i]));
                    if y != x {
                        let k = choose|k: int| 0 <= k < init.len() && init[k] == y;
                        assert(v[k] == y);
                    }
                } else {
                    assert(v[v.len() - 1] == y);
                }
            }
            if v.contains(y) {
                let i = choose|i: int| 0 <= i < v.len() && v[i] == y;
                if i < init.len() {
                    assert(init[i] == y);
                    assert(p.contains(y));
                    let k = choose|k: int| 0 <= k < p.len() && p[k] == y;
                    assert(r[k] == y);
                }
            }
            if y == x {
                assert(p.contains(x));
                let k = choose|k: int| 0 <= k < p.len() && p[k] == x;
                assert(r[k] == x);
            }
        }
    }
}

/// The texts of a list in order: nothing is lost or added, and nothing occurs
/// twice.
pub proof fn law_sorted_set(v: Seq<Seq<char>>)
    ensures
        increasing(sorted_set(v)),
        forall|y: Seq<char>| #[trigger] sorted_set(v).contains(y) <==> v.contains(y),
    decreases v.len(),
{
    if v.len() > 0 {
        let init = v.drop_last();
        law_sorted_set(init);
        lemma_placed(sorted_set(init), v.last());
        assert forall|y: Seq<char>| #[trigger] sorted_set(v).contains(y) <==> v.contains(y) by {
            if v.contains(y) {
                let i = choose|i: int| 0 <= i < v.len() && v[i] == y;
                if i < init.len() {
                    assert(init[i] == y);
                }
            }
            if init.contains(y) {
                let i = choose|i: int| 0 <= i < init.len() && init[i] == y;
                assert(v[i] == y);
            }
            assert(v[v.len() - 1] == v.last());
        }
    }
}

/// What a list is in order depends on the texts in it alone, not on how often
/// or in what order they occur.
pub proof fn law_sorted_set_of_contents(a: Seq<Seq<char>>, b: Seq<Seq<char>>)
    requires
        forall|y: Seq<char>| #[trigger] a.contains(y) <==> b.contains(y),
    ensures
        sorted_set(a) == sorted_set(b),
{
    law_sorted_set(a);
    law_sorted_set(b);
    assert forall|y: Seq<char>| #[trigger] sorted_set(a).contains(y) <==> sorted_set(b).contains(
        y,
    ) by {
        assert(a.contains(y) <==> b.contains(y));
    }
    lemma_increasing_unique(sorted_set(a), sorted_set(b));
}

/// An increasing list is determined by the texts in it.
proof fn lemma_increasing_unique(a: Seq<Seq<char>>, b: Seq<Seq<char>>)
    requires
        increasing(a),
        increasing(b),
        forall|y: Seq<char>| #[trigger] a.contains(y) <==> b.contains(y),
    ensures
        a == b,
    decreases a.len(),
{
    if a.len() == 0 {
        if b.len() > 0 {
            assert(b.contains(b[0]));
            assert(a.contains(b[0]));
        }
        assert(a =~= b);
    } else {
        let (x, y) = (a.last(), b.last());
        assert(a.contains(a[a.len() - 1]));
        assert(b.contains(x));
        assert(b.contains(b[b.len() - 1]));
        assert(a.contains(y));
        let i = choose|i: int| 0 <= i < b.len() && b[i] == x;
        let j = choose|j: int| 0 <= j < a.len() && a[j] == y;
        law_order(x, y, x);
        assert(x == y) by {
            if x != y {
                assert(precedes(b[i], b[b.len() - 1]));
                assert(precedes(a[j], a[a.len() - 1]));
            }
        }
        let (c, d) = (a.drop_last(), b.drop_last());
        assert forall|z: Seq<char>| #[trigger] c.contains(z) <==> d.contains(z) by {
            law_order(z, z, z);
            if c.contains(z) {
                let k = choose|k: int| 0 <= k < c.len() && c[k] == z;
                assert(a[k] == z && precedes(a[k], a[a.len() - 1]));
                assert(a.contains(z));
                let m = choose|m: int| 0 <= m < b.len() && b[m] == z;
                assert(d[m] == z);
            }
            if d.contains(z) {
                let k = choose|k: int| 0 <= k < d.len() && d[k] == z;
                assert(b[k] == z && precedes(b[k], b[b.len() - 1]));
                assert(b.contains(z));
                assert(a.contains(z));
                let m = choose|m: int| 0 <= m < a.len() && a[m] == z;
                assert(c[m] == z);
            }
        }
        lemma_increasing_unique(c, d);
        assert(a =~= c.push(x));
        assert(b =~= d.push(y));
    }
}

/// How one text stands to another.
#[derive(Debug, Clone, Copy, PartialEq, Eq, Structural)]
pub enum Place {
    Before,
    Same,
    After,
}

/// How `a` stands to `b`.
pub fn place(a: &str, b: &str) -> (r: Place)
    ensures
        r == Place::Before <==> precedes(a@, b@),
        r == Place::Same <==> a@ == b@,
        r == Place::After <==> precedes(b@, a@),
{
    let x: &[u8] = a.as_bytes();
    let y: &[u8] = b.as_bytes();
    let n: usize = x.len();
    let m: usize = y.len();
    proof {
        law_order(a@, b@, a@);
    }
    let mut i: usize = 0;
    assert(x@.skip(0) =~= x@);
    assert(y@.skip(0) =~= y@);
    while i < n && i < m
        invariant
            n == x@.len(),
            m == y@.len(),
            i <= n,
            i <= m,
            x@ == bytes::utf8(a@),
            y@ == bytes::utf8(b@),
            precedes(a@, b@) == lex(x@.skip(i as int), y@.skip(i as int)),
            precedes(b@, a@) == lex(y@.skip(i as int), x@.skip(i as int)),
            precedes(a@, b@) || a@ == b@ || precedes(b@, a@),
            !(precedes(a@, b@) && precedes(b@, a@)),
            !precedes(a@, a@),
        decreases n - i,
    {
        assert(x@.skip(i as int).skip(1) =~= x@.skip(i + 1));
        assert(y@.skip(i as int).skip(1) =~= y@.skip(i + 1));
        if x[i] < y[i] {
            return Place::Before;
        }
        if x[i] > y[i] {
            return Place::After;
        }
        i = i + 1;
    }
    if i < m {
        Place::Before
    } else if i < n {
        Place::After
    } else {
        Place::Same
    }
}

/// Two increasing lists as one, in which nothing occurs twice.
fn merge(a: Vec<String>, b: Vec<String>) -> (r: Vec<String>)
    requires
        increasing(strs::texts(a@)),
        increasing(strs::texts(b@)),
    ensures
        increasing(strs::texts(r@)),
        forall|y: Seq<char>| #[trigger]
            strs::texts(r@).contains(y) <==> strs::texts(a@).contains(y) || strs::texts(
                b@,
            ).contains(y),
{
    let ghost (a0, b0) = (strs::texts(a@), strs::texts(b@));
    let mut a: Vec<String> = a;
    let mut b: Vec<String> = b;
    let mut down: Vec<String> = Vec::new();
    while a.len() > 0 || b.len() > 0
        invariant
            joined(strs::texts(a@), strs::texts(b@), strs::texts(down@), a0, b0),
        decreases a@.len() + b@.len(),
    {
        let (take_a, take_b): (bool, bool) = if b.len() == 0 {
            (true, false)
        } else if a.len() == 0 {
            (false, true)
        } else {
            match place(a[a.len() - 1].as_str(), b[b.len() - 1].as_str()) {
                Place::After => (true, false),
                Place::Before => (false, true),
                Place::Same => (true, true),
            }
        };
        let ghost (ta, tb, td) = (strs::texts(a@), strs::texts(b@), strs::texts(down@));
        let ghost x = if take_a {
            ta.last()
        } else {
            tb.last()
        };
        if take_a {
            match a.pop() {
                Some(s) => {
                    down.push(s);
                },
                None => {},
            }
            if take_b {
                b.pop();
            }
        } else {
            match b.pop() {
                Some(s) => {
                    down.push(s);
                },
                None => {},
            }
        }
        proof {
            assert(strs::texts(down@) =~= td.push(x));
            assert(strs::texts(a@) =~= if take_a {
                ta.drop_last()
            } else {
                ta
            });
            assert(strs::texts(b@) =~= if take_b {
                tb.drop_last()
            } else {
                tb
            });
            lemma_joined(ta, tb, td, a0, b0, take_a, take_b);
        }
    }
    let mut out: Vec<String> = Vec::new();
    let ghost whole = strs::texts(down@);
    while down.len() > 0
        invariant
            down@.len() + out@.len() == whole.len(),
            strs::texts(down@) == whole.take(down@.len() as int),
            strs::texts(out@) == whole.skip(down@.len() as int).reverse(),
        decreases down@.len(),
    {
        let ghost (td, to) = (strs::texts(down@), strs::texts(out@));
        match down.pop() {
            Some(s) => {
                assert(s@ == td.last());
                out.push(s);
            },
            None => {},
        }
        assert(strs::texts(down@) =~= td.drop_last());
        assert(strs::texts(out@) =~= to.push(td.last()));
        assert(strs::texts(out@) =~= whole.skip(down@.len() as int).reverse());
    }
    proof {
        let r = strs::texts(out@);
        assert(r =~= whole.reverse());
        assert forall|y: Seq<char>| #[trigger] r.contains(y) <==> a0.contains(y) || b0.contains(
            y,
        ) by {
            assert(a0.contains(y) || b0.contains(y) <==> whole.contains(y)) by {
                assert(strs::texts(a@) =~= Seq::empty());
                assert(strs::texts(b@) =~= Seq::empty());
            }
            if r.contains(y) {
                let i = choose|i: int| 0 <= i < r.len() && r[i] == y;
                assert(whole[whole.len() - 1 - i] == y);
            }
            if whole.contains(y) {
                let i = choose|i: int| 0 <= i < whole.len() && whole[i] == y;
                assert(r[whole.len() - 1 - i] == y);
            }
        }
    }
    out
}

/// What is left of two increasing lists, and, from the last text down, what
/// was taken from their ends.
spec fn joined(
    a: Seq<Seq<char>>,
    b: Seq<Seq<char>>,
    down: Seq<Seq<char>>,
    a0: Seq<Seq<char>>,
    b0: Seq<Seq<char>>,
) -> bool {
    &&& increasing(a)
    &&& increasing(b)
    &&& forall|i: int, j: int|
        0 <= i < j < down.len() ==> precedes(#[trigger] down[j], #[trigger] down[i])
    &&& forall|i: int, j: int|
        0 <= i < a.len() && 0 <= j < down.len() ==> precedes(#[trigger] a[i], #[trigger] down[j])
    &&& forall|i: int, j: int|
        0 <= i < b.len() && 0 <= j < down.len() ==> precedes(#[trigger] b[i], #[trigger] down[j])
    &&& forall|y: Seq<char>|
        #![trigger a0.contains(y)]
        #![trigger b0.contains(y)]
        a0.contains(y) || b0.contains(y) <==> a.contains(y) || b.contains(y) || down.contains(y)
}

proof fn lemma_joined(
    a: Seq<Seq<char>>,
    b: Seq<Seq<char>>,
    down: Seq<Seq<char>>,
    a0: Seq<Seq<char>>,
    b0: Seq<Seq<char>>,
    take_a: bool,
    take_b: bool,
)
    requires
        joined(a, b, down, a0, b0),
        take_a || take_b,
        take_a ==> a.len() > 0,
        take_b ==> b.len() > 0,
        take_a && take_b ==> a.last() == b.last(),
        take_a && !take_b ==> b.len() == 0 || precedes(b.last(), a.last()),
        take_b && !take_a ==> a.len() == 0 || precedes(a.last(), b.last()),
    ensures
        joined(
            if take_a {
                a.drop_last()
            } else {
                a
            },
            if take_b {
                b.drop_last()
            } else {
                b
            },
            down.push(
                if take_a {
                    a.last()
                } else {
                    b.last()
                },
            ),
            a0,
            b0,
        ),
{
    let x = if take_a {
        a.last()
    } else {
        b.last()
    };
    let c = if take_a {
        a.drop_last()
    } else {
        a
    };
    let d = if take_b {
        b.drop_last()
    } else {
        b
    };
    let e = down.push(x);
    assert forall|i: int| 0 <= i < c.len() implies precedes(#[trigger] c[i], x) by {
        assert(c[i] == a[i]);
        if !take_a && i < a.len() - 1 {
            law_order(a[i], a.last(), x);
        }
    }
    assert forall|i: int| 0 <= i < d.len() implies precedes(#[trigger] d[i], x) by {
        assert(d[i] == b[i]);
        if !take_b && i < b.len() - 1 {
            law_order(b[i], b.last(), x);
        }
    }
    assert forall|y: Seq<char>|
        #![trigger a0.contains(y)]
        #![trigger b0.contains(y)]
        a0.contains(y) || b0.contains(y) <==> c.contains(y) || d.contains(y) || e.contains(y) by {
        lemma_drop_last_contains(a, y);
        lemma_drop_last_contains(b, y);
        assert(e.drop_last() =~= down);
        lemma_drop_last_contains(e, y);
    }
}

proof fn lemma_drop_last_contains(v: Seq<Seq<char>>, y: Seq<char>)
    ensures
        v.len() > 0 ==> (v.contains(y) <==> v.drop_last().contains(y) || y == v.last()),
{
    if v.len() > 0 {
        if v.contains(y) {
            let i = choose|i: int| 0 <= i < v.len() && v[i] == y;
            if i < v.len() - 1 {
                assert(v.drop_last()[i] == y);
            }
        }
        if v.drop_last().contains(y) {
            let i = choose|i: int| 0 <= i < v.drop_last().len() && v.drop_last()[i] == y;
            assert(v[i] == y);
        }
        assert(v[v.len() - 1] == v.last());
    }
}

fn sort(v: Vec<String>) -> (r: Vec<String>)
    ensures
        increasing(strs::texts(r@)),
        forall|y: Seq<char>| #[trigger]
            strs::texts(r@).contains(y) <==> strs::texts(v@).contains(y),
    decreases v@.len(),
{
    if v.len() <= 1 {
        return v;
    }
    let ghost whole = strs::texts(v@);
    let mut low: Vec<String> = v;
    let half: usize = low.len() / 2;
    let high: Vec<String> = low.split_off(half);
    proof {
        let (a, b) = (strs::texts(low@), strs::texts(high@));
        assert(a =~= whole.take(half as int));
        assert(b =~= whole.skip(half as int));
        assert forall|y: Seq<char>| #[trigger] whole.contains(y) <==> a.contains(y) || b.contains(
            y,
        ) by {
            if whole.contains(y) {
                let i = choose|i: int| 0 <= i < whole.len() && whole[i] == y;
                if i < half {
                    assert(a[i] == y);
                } else {
                    assert(b[i - half] == y);
                }
            }
            if a.contains(y) {
                let i = choose|i: int| 0 <= i < a.len() && a[i] == y;
                assert(whole[i] == y);
            }
            if b.contains(y) {
                let i = choose|i: int| 0 <= i < b.len() && b[i] == y;
                assert(whole[half + i] == y);
            }
        }
    }
    let a: Vec<String> = sort(low);
    let b: Vec<String> = sort(high);
    let r: Vec<String> = merge(a, b);
    assert forall|y: Seq<char>| #[trigger]
        strs::texts(r@).contains(y) <==> whole.contains(y) by {
        assert(strs::texts(a@).contains(y) <==> strs::texts(low@).contains(y));
        assert(strs::texts(b@).contains(y) <==> strs::texts(high@).contains(y));
    }
    r
}

/// Put a list in order and drop what occurs twice.
pub fn dedup_inplace(v: &mut Vec<String>)
    ensures
        strs::texts(final(v)@) == sorted_set(strs::texts(old(v)@)),
{
    let mut whole: Vec<String> = Vec::new();
    whole.append(v);
    assert(whole@ =~= old(v)@);
    let mut sorted: Vec<String> = sort(whole);
    proof {
        law_sorted_set(strs::texts(old(v)@));
        lemma_increasing_unique(strs::texts(sorted@), sorted_set(strs::texts(old(v)@)));
    }
    let ghost list = sorted@;
    v.append(&mut sorted);
    assert(v@ =~= list);
}

} // verus!
