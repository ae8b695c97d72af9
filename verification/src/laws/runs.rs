//! What pulling runs of text out of bytes means.

use vstd::prelude::*;

use crate::classify;
use crate::laws::kinds;

verus! {

/// A UTF-16BE text character at `i`.
pub open spec fn wide_at(p: Seq<u8>, i: int) -> bool {
    0 <= i && i + 1 < p.len() && p[i] == 0 && kinds::plain(p[i + 1])
}

/// The pair of bytes at `k` from `a` on is a text character.
pub open spec fn wide_nth(p: Seq<u8>, a: int, k: int) -> bool {
    wide_at(p, a + 2 * k)
}

/// `n` UTF-16BE text characters in a row from `a` on, and no more on either
/// side.
pub open spec fn wide_run_at(p: Seq<u8>, a: int, n: int) -> bool {
    &&& n > 0
    &&& forall|k: int| 0 <= k < n ==> #[trigger] wide_nth(p, a, k)
    &&& !wide_at(p, a - 2)
    &&& !wide_at(p, a + 2 * n)
}

/// `s` is what stands in the run at `a`.
pub open spec fn reads_wide(p: Seq<u8>, a: int, s: Seq<char>) -> bool {
    forall|k: int| 0 <= k < s.len() ==> (#[trigger] s[k]) as u32 == p[a + 2 * k + 1] as u32
}

/// The text at `k` is the whole run at `at[k]`, which is long enough.
pub open spec fn wide_run_read(
    p: Seq<u8>,
    at: Seq<int>,
    r: Seq<Seq<char>>,
    min: nat,
    k: int,
) -> bool {
    wide_run_at(p, at[k], r[k].len() as int) && r[k].len() >= min && reads_wide(p, at[k], r[k])
}

pub open spec fn are_wide_runs(p: Seq<u8>, at: Seq<int>, r: Seq<Seq<char>>, min: nat) -> bool {
    &&& at.len() == r.len()
    &&& forall|k: int| 0 <= k < r.len() ==> #[trigger] wide_run_read(p, at, r, min, k)
}

/// Places from `i` on, each behind the one before.
pub open spec fn in_order(at: Seq<int>, i: int) -> bool {
    &&& forall|k: int| 0 <= k < at.len() ==> #[trigger] at[k] >= i
    &&& forall|j: int, k: int| 0 <= j < k < at.len() ==> at[j] < at[k]
}

proof fn lemma_wide_run(p: Seq<u8>, i: int)
    ensures
        forall|k: int| 0 <= k < classify::run16(p, i) ==> #[trigger] wide_nth(p, i, k),
        !wide_at(p, i + 2 * classify::run16(p, i)),
    decreases p.len() - i,
{
    let n = classify::run16(p, i);
    if n > 0 {
        lemma_wide_run(p, i + 2);
        assert(n == 1 + classify::run16(p, i + 2));
        assert forall|k: int| 0 <= k < n implies #[trigger] wide_nth(p, i, k) by {
            if k > 0 {
                assert(wide_nth(p, i + 2, k - 1));
            }
        }
    }
}

/// The texts that are pulled out as UTF-16BE are the runs of at least `min`
/// characters, each of them whole, in the order in which they stand, and each
/// once.
pub proof fn law_wide_runs(p: Seq<u8>, min: nat) -> (at: Seq<int>)
    ensures
        in_order(at, 0),
        are_wide_runs(p, at, classify::runs16(p, 0, min), min),
        forall|a: int, n: int| #[trigger] wide_run_at(p, a, n) && n >= min ==> at.contains(a),
{
    let at = lemma_wide_runs(p, 0, min);
    assert forall|a: int, n: int| #[trigger] wide_run_at(p, a, n) && n >= min implies at.contains(
        a,
    ) by {
        assert(wide_nth(p, a, 0));
    }
    at
}

proof fn lemma_wide_runs(p: Seq<u8>, i: int, min: nat) -> (at: Seq<int>)
    requires
        0 <= i,
        !wide_at(p, i - 1),
        !wide_at(p, i - 2) || !wide_at(p, i),
    ensures
        in_order(at, i),
        are_wide_runs(p, at, classify::runs16(p, i, min), min),
        forall|a: int, n: int| #[trigger]
            wide_run_at(p, a, n) && n >= min && a >= i ==> at.contains(a),
    decreases p.len() - i,
{
    let r = classify::runs16(p, i, min);
    if i + 2 > p.len() {
        assert forall|a: int, n: int| #[trigger] wide_run_at(p, a, n) && a >= i implies false by {
            assert(wide_nth(p, a, 0));
        }
        Seq::empty()
    } else if classify::run16(p, i) > 0 {
        let n = classify::run16(p, i);
        classify::lemma_run16(p, i);
        lemma_wide_run(p, i);
        let next = i + 2 * n;
        assert(wide_nth(p, i, n - 1));
        assert(wide_nth(p, i, 0));
        assert(!wide_at(p, next - 1));
        assert(wide_run_at(p, i, n as int));
        let rest = lemma_wide_runs(p, next, min);
        let tail = classify::runs16(p, next, min);
        let at = if n >= min {
            seq![i] + rest
        } else {
            rest
        };
        let here = at.len() - rest.len();
        assert forall|k: int| 0 <= k < r.len() implies #[trigger] wide_run_read(
            p,
            at,
            r,
            min,
            k,
        ) by {
            if k >= here {
                assert(wide_run_read(p, rest, tail, min, k - here));
            } else {
                assert(r[k] == classify::chars16(p, i, n));
            }
        }
        assert forall|k: int| 0 <= k < at.len() implies #[trigger] at[k] >= i by {
            if k >= here {
                assert(at[k] == rest[k - here]);
            }
        }
        assert forall|j: int, k: int| 0 <= j < k < at.len() implies at[j] < at[k] by {
            assert(at[k] == rest[k - here]);
            if j >= here {
                assert(at[j] == rest[j - here]);
            }
        }
        assert forall|a: int, m: int| #[trigger]
            wide_run_at(p, a, m) && m >= min && a >= i implies at.contains(a) by {
            assert(wide_nth(p, a, 0));
            if a == i {
                lemma_one_length(p, i, n as int, m);
                assert(at[0] == i);
            } else if a < next {
                let k = (a - i) / 2;
                assert(wide_nth(p, i, k));
                if i + 2 * k == a {
                    assert(wide_nth(p, i, k - 1));
                    assert(i + 2 * (k - 1) == a - 2);
                }
                assert(false);
            } else {
                assert(rest.contains(a));
                let k = choose|k: int| 0 <= k < rest.len() && rest[k] == a;
                assert(at[k + here] == a);
            }
        }
        at
    } else {
        assert(!wide_at(p, i));
        let at = lemma_wide_runs(p, i + 1, min);
        assert forall|a: int, m: int| #[trigger]
            wide_run_at(p, a, m) && m >= min && a >= i implies at.contains(a) by {
            assert(wide_nth(p, a, 0));
        }
        at
    }
}

proof fn lemma_one_length(p: Seq<u8>, a: int, n: int, m: int)
    requires
        wide_run_at(p, a, n),
        wide_run_at(p, a, m),
    ensures
        n == m,
{
    if n < m {
        assert(wide_nth(p, a, n));
    }
    if m < n {
        assert(wide_nth(p, a, m));
    }
}

/// Text bytes from `a` to `b`, and no more on either side.
pub open spec fn narrow_run_at(p: Seq<u8>, a: int, b: int) -> bool {
    &&& 0 <= a <= b <= p.len()
    &&& forall|k: int| a <= k < b ==> kinds::plain(#[trigger] p[k])
    &&& a > 0 ==> !kinds::plain(p[a - 1])
    &&& b < p.len() ==> !kinds::plain(p[b])
}

pub open spec fn reads_narrow(p: Seq<u8>, a: int, s: Seq<char>) -> bool {
    forall|k: int| 0 <= k < s.len() ==> (#[trigger] s[k]) as u32 == p[a + k] as u32
}

pub open spec fn narrow_run_read(
    p: Seq<u8>,
    at: Seq<int>,
    r: Seq<Seq<char>>,
    min: nat,
    k: int,
) -> bool {
    narrow_run_at(p, at[k], at[k] + r[k].len()) && r[k].len() >= min && reads_narrow(p, at[k], r[k])
}

pub open spec fn are_narrow_runs(p: Seq<u8>, at: Seq<int>, r: Seq<Seq<char>>, min: nat) -> bool {
    &&& at.len() == r.len()
    &&& forall|k: int| 0 <= k < r.len() ==> #[trigger] narrow_run_read(p, at, r, min, k)
}

/// The texts that are pulled out as ASCII are the runs of at least `min`
/// bytes, each of them whole, in the order in which they stand, and each once.
pub proof fn law_narrow_runs(p: Seq<u8>, min: nat) -> (at: Seq<int>)
    ensures
        in_order(at, 0),
        are_narrow_runs(p, at, classify::runs8(p, 0, min), min),
        forall|a: int, b: int| #[trigger]
            narrow_run_at(p, a, b) && b - a >= min ==> at.contains(a),
{
    lemma_narrow_runs(p, 0, min)
}

proof fn lemma_narrow_runs(p: Seq<u8>, i: int, min: nat) -> (at: Seq<int>)
    requires
        0 <= i,
        0 < i <= p.len() ==> !kinds::plain(p[i - 1]),
    ensures
        in_order(at, i),
        are_narrow_runs(p, at, classify::runs8(p, i, min), min),
        forall|a: int, b: int| #[trigger]
            narrow_run_at(p, a, b) && b - a >= min && a >= i ==> at.contains(a),
    decreases p.len() + 1 - i,
{
    let r = classify::runs8(p, i, min);
    if i > p.len() {
        Seq::empty()
    } else {
        classify::lemma_run8(p, i);
        let n = classify::run8(p, i);
        let next = i + n + 1;
        assert forall|k: int| i <= k < i + n implies kinds::plain(#[trigger] p[k]) by {
            assert(classify::text_byte(p[k]));
        }
        let rest = lemma_narrow_runs(p, next, min);
        let tail = classify::runs8(p, next, min);
        let at = if n >= min {
            seq![i] + rest
        } else {
            rest
        };
        let here = at.len() - rest.len();
        assert forall|k: int| 0 <= k < r.len() implies #[trigger] narrow_run_read(
            p,
            at,
            r,
            min,
            k,
        ) by {
            if k >= here {
                assert(narrow_run_read(p, rest, tail, min, k - here));
            } else {
                assert(r[k].len() == n);
            }
        }
        assert forall|k: int| 0 <= k < at.len() implies #[trigger] at[k] >= i by {
            if k >= here {
                assert(at[k] == rest[k - here]);
            }
        }
        assert forall|j: int, k: int| 0 <= j < k < at.len() implies at[j] < at[k] by {
            assert(at[k] == rest[k - here]);
            if j >= here {
                assert(at[j] == rest[j - here]);
            }
        }
        assert forall|a: int, b: int| #[trigger]
            narrow_run_at(p, a, b) && b - a >= min && a >= i implies at.contains(a) by {
            if a == i {
                if b < i + n {
                    assert(kinds::plain(p[b]));
                }
                if b > i + n {
                    assert(kinds::plain(p[i + n]));
                }
                assert(at[0] == i);
            } else if a < next {
                assert(kinds::plain(p[a - 1]));
                assert(false);
            } else {
                assert(rest.contains(a));
                let k = choose|k: int| 0 <= k < rest.len() && rest[k] == a;
                assert(at[k + here] == a);
            }
        }
        at
    }
}

} // verus!
