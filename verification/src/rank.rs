//! Frecency ranking: how much a visit weighs by its age, and which entries
//! make the top of the list.

use vstd::prelude::*;

verus! {

/// Seconds in an hour.
pub const HOUR: u64 = 3_600;

/// Seconds in a day.
pub const DAY: u64 = 86_400;

/// Seconds in a week.
pub const WEEK: u64 = 604_800;

/// How many entries the picker shows.
pub const TOP_N: usize = 5;

/// The age of a visit made at `time`, seen at `now`; a visit stamped in
/// the future has age 0.
pub fn age_seconds(now: u64, time: u64) -> (age: u64)
    ensures
        age == if time <= now {
            now - time
        } else {
            0
        },
{
    now.saturating_sub(time)
}

/// The factor by which a visit of this age multiplies its rank, in
/// quarters: 4 within the hour, 2 within the day, 1/2 within the week,
/// 1/4 after that.
pub open spec fn frecency_quarters_spec(age_seconds: u64) -> u64 {
    if age_seconds < HOUR {
        16
    } else if age_seconds < DAY {
        8
    } else if age_seconds < WEEK {
        2
    } else {
        1
    }
}

/// The frecency factor of a visit of this age, in quarters: the score of an
/// entry is its rank times this, divided by 4.
pub fn frecency_quarters(age_seconds: u64) -> (q: u64)
    ensures
        q == frecency_quarters_spec(age_seconds),
{
    if age_seconds < HOUR {
        16
    } else if age_seconds < DAY {
        8
    } else if age_seconds < WEEK {
        2
    } else {
        1
    }
}

/// An older visit never weighs more than a newer one.
pub proof fn lemma_frecency_decreases_with_age(newer: u64, older: u64)
    requires
        newer <= older,
    ensures
        frecency_quarters_spec(older) <= frecency_quarters_spec(newer),
{
}


/// Whether candidate `a` comes before candidate `b` in the ranking: a
/// higher score first, and of equal scores the one listed first.
///
/// A candidate is `(score, exists)`: an integer that orders the entries as
/// their frecency scores do, and whether the entry's directory exists.
pub open spec fn comes_before(c: Seq<(u64, bool)>, a: int, b: int) -> bool {
    c[a].0 > c[b].0 || (c[a].0 == c[b].0 && a < b)
}

/// `r` is the top `n` of the existing candidates among the first `upto`:
/// at most `n` of them, in ranking order, and every existing candidate left
/// out ranks after all of them, which then number `n`.
pub open spec fn is_top_n_upto(c: Seq<(u64, bool)>, upto: int, n: nat, r: Seq<usize>) -> bool {
    &&& r.len() <= n
    &&& forall|k: int| 0 <= k < r.len() ==> #[trigger] r[k] < upto && c[r[k] as int].1
    &&& forall|a: int, b: int|
        0 <= a < b < r.len() ==> comes_before(c, #[trigger] r[a] as int, #[trigger] r[b] as int)
    &&& forall|j: int|
        0 <= j < upto && #[trigger] c[j].1 && !r.contains(j as usize) ==> r.len() == n && forall|
            k: int,
        | 0 <= k < r.len() ==> comes_before(c, #[trigger] r[k] as int, j)
}

/// `r` lists, in ranking order, the first `n` candidates whose directory
/// exists (all of them when fewer exist).
pub open spec fn is_top_n(c: Seq<(u64, bool)>, n: nat, r: Seq<usize>) -> bool {
    is_top_n_upto(c, c.len() as int, n, r)
}

/// `s` cut back to `n` elements when it has one more.
pub open spec fn trim_to(s: Seq<usize>, n: nat) -> Seq<usize> {
    if s.len() > n {
        s.drop_last()
    } else {
        s
    }
}

proof fn lemma_step_skipped(c: Seq<(u64, bool)>, i: int, n: nat, r: Seq<usize>)
    requires
        0 <= i < c.len(),
        !c[i].1,
        is_top_n_upto(c, i, n, r),
    ensures
        is_top_n_upto(c, i + 1, n, r),
{
}

proof fn lemma_step_selected(c: Seq<(u64, bool)>, i: int, n: nat, r: Seq<usize>, p: int)
    requires
        0 <= i < c.len(),
        i <= usize::MAX,
        c[i].1,
        is_top_n_upto(c, i, n, r),
        0 <= p <= r.len(),
        forall|a: int| 0 <= a < p ==> c[#[trigger] r[a] as int].0 >= c[i].0,
        p < r.len() ==> c[r[p] as int].0 < c[i].0,
    ensures
        is_top_n_upto(c, i + 1, n, trim_to(r.insert(p, i as usize), n)),
{
    let iu = i as usize;
    let r1 = r.insert(p, iu);
    let r2 = trim_to(r1, n);
    assert(r1.len() == r.len() + 1);
    assert forall|k: int| 0 <= k < r1.len() implies #[trigger] r1[k] == (if k < p {
        r[k]
    } else if k == p {
        iu
    } else {
        r[k - 1]
    }) by {}
    // Everything before `p` outranks `i`, everything from `p` on ranks after it.
    assert forall|a: int| 0 <= a < p implies comes_before(c, #[trigger] r[a] as int, i) by {
        assert(r[a] < i);
    }
    assert forall|a: int| p <= a < r.len() implies comes_before(c, i, #[trigger] r[a] as int) by {
        if a > p {
            assert(comes_before(c, r[p] as int, r[a] as int));
        }
        assert(r[a] < i);
    }
    assert forall|a: int, b: int| 0 <= a < b < r1.len() implies comes_before(
        c,
        #[trigger] r1[a] as int,
        #[trigger] r1[b] as int,
    ) by {
        if a < p {
            if b < p {
                assert(comes_before(c, r[a] as int, r[b] as int));
            } else if b == p {
            } else {
                assert(comes_before(c, r[a] as int, r[b - 1] as int));
            }
        } else if a == p {
            assert(comes_before(c, i, r[b - 1] as int));
        } else {
            assert(comes_before(c, r[a - 1] as int, r[b - 1] as int));
        }
    }
    assert(r2.len() <= r1.len());
    assert forall|k: int| 0 <= k < r2.len() implies #[trigger] r2[k] == r1[k] by {}
    assert forall|a: int, b: int| 0 <= a < b < r2.len() implies comes_before(
        c,
        #[trigger] r2[a] as int,
        #[trigger] r2[b] as int,
    ) by {
        assert(comes_before(c, r1[a] as int, r1[b] as int));
    }
    assert forall|k: int| 0 <= k < r2.len() implies #[trigger] r2[k] < i + 1 && c[r2[k] as int].1 by {
        assert(r2[k] == r1[k]);
        if k < p {
            assert(r[k] < i);
        } else if k > p {
            assert(r[k - 1] < i);
        }
    }
    assert forall|j: int|
        0 <= j < i + 1 && #[trigger] c[j].1 && !r2.contains(j as usize) implies r2.len() == n
        && forall|k: int| 0 <= k < r2.len() ==> comes_before(c, #[trigger] r2[k] as int, j) by {
        if j == i {
            if p < r2.len() {
                assert(r2[p] == iu);
            }
            assert(p == r.len() && r1.len() > n);
            assert(r2 =~= r);
        } else if r.contains(j as usize) {
            let m = choose|m: int| 0 <= m < r.len() && r[m] == j as usize;
            let m1 = if m < p {
                m
            } else {
                m + 1
            };
            assert(r1[m1] == j as usize);
            if m1 < r2.len() {
                assert(r2[m1] == j as usize);
            }
            assert(r1.len() > n && m1 == r1.len() - 1);
            assert forall|k: int| 0 <= k < r2.len() implies comes_before(
                c,
                #[trigger] r2[k] as int,
                j,
            ) by {
                assert(comes_before(c, r1[k] as int, r1[m1] as int));
            }
        } else {
            assert(r.len() == n);
            assert forall|k: int| 0 <= k < r2.len() implies comes_before(
                c,
                #[trigger] r2[k] as int,
                j,
            ) by {
                if k < p {
                    assert(comes_before(c, r[k] as int, j));
                } else if k == p {
                    assert(comes_before(c, r[p] as int, j));
                } else {
                    assert(comes_before(c, r[k - 1] as int, j));
                }
            }
        }
    }
}

/// The entries to offer, best first: the first `n` candidates whose
/// directory exists, in ranking order (a higher score first, and of equal
/// scores the one listed first). Candidates whose directory is gone are
/// skipped after ranking, so they never push an existing one out.
///
/// Each candidate is `(score, exists)`: an integer that orders the entries
/// as their frecency scores do, and whether the entry's directory exists.
/// The result holds indices into `candidates`.
pub fn top_n(candidates: &Vec<(u64, bool)>, n: usize) -> (r: Vec<usize>)
    ensures
        is_top_n(candidates@, n as nat, r@),
{
    let mut r: Vec<usize> = Vec::new();
    let len = candidates.len();
    for i in 0..len
        invariant
            len == candidates@.len(),
            is_top_n_upto(candidates@, i as int, n as nat, r@),
    {
        let (score, exists) = candidates[i];
        if exists {
            let mut p: usize = 0;
            while p < r.len() && candidates[r[p]].0 >= score
                invariant
                    len == candidates@.len(),
                    i < len,
                    score == candidates@[i as int].0,
                    is_top_n_upto(candidates@, i as int, n as nat, r@),
                    0 <= p <= r@.len(),
                    forall|a: int| 0 <= a < p ==> candidates@[#[trigger] r@[a] as int].0 >= score,
                decreases r@.len() - p,
            {
                p += 1;
            }
            proof {
                lemma_step_selected(candidates@, i as int, n as nat, r@, p as int);
            }
            let ghost before = r@;
            r.insert(p, i);
            if r.len() > n {
                r.pop();
            }
            assert(r@ =~= trim_to(before.insert(p as int, i), n as nat));
        } else {
            proof {
                lemma_step_skipped(candidates@, i as int, n as nat, r@);
            }
        }
    }
    r
}


/// The indices of the candidates whose directory exists.
pub open spec fn existing(c: Seq<(u64, bool)>) -> Set<usize> {
    Set::new(|j: usize| j < c.len() && c[j as int].1)
}

/// How many candidates have a directory that exists.
pub open spec fn count_existing(c: Seq<(u64, bool)>) -> nat
    decreases c.len(),
{
    if c.len() == 0 {
        0
    } else {
        count_existing(c.drop_last()) + if c.last().1 {
            1nat
        } else {
            0nat
        }
    }
}

proof fn lemma_existing_count(c: Seq<(u64, bool)>)
    requires
        c.len() <= usize::MAX + 1,
    ensures
        existing(c).finite(),
        existing(c).len() == count_existing(c),
    decreases c.len(),
{
    if c.len() == 0 {
        assert(existing(c) =~= Set::empty());
    } else {
        let d = c.drop_last();
        lemma_existing_count(d);
        let last = (c.len() - 1) as usize;
        if c.last().1 {
            assert(existing(c) =~= existing(d).insert(last));
        } else {
            assert(existing(c) =~= existing(d));
        }
    }
}

/// The top `n` holds `n` entries, or every existing one when fewer than
/// `n` exist: candidates whose directory is gone take no place in it.
pub proof fn lemma_top_n_len(c: Seq<(u64, bool)>, n: nat, r: Seq<usize>)
    requires
        c.len() <= usize::MAX,
        is_top_n(c, n, r),
    ensures
        r.len() == if n <= count_existing(c) {
            n
        } else {
            count_existing(c)
        },
{
    lemma_existing_count(c);
    assert(r.no_duplicates()) by {
        assert forall|a: int, b: int| 0 <= a < r.len() && 0 <= b < r.len() && a != b implies r[a]
            != r[b] by {
            if a < b {
                assert(comes_before(c, r[a] as int, r[b] as int));
            } else {
                assert(comes_before(c, r[b] as int, r[a] as int));
            }
        }
    }
    r.unique_seq_to_set();
    vstd::seq_lib::seq_to_set_is_finite(r);
    assert(r.to_set().subset_of(existing(c))) by {
        assert forall|x: usize| r.to_set().contains(x) implies existing(c).contains(x) by {
            let k = choose|k: int| 0 <= k < r.len() && r[k] == x;
            assert(r[k] < c.len() && c[r[k] as int].1);
        }
    }
    vstd::set_lib::lemma_len_subset(r.to_set(), existing(c));
    if r.len() < n {
        assert(existing(c).subset_of(r.to_set())) by {
            assert forall|x: usize| existing(c).contains(x) implies r.to_set().contains(x) by {
                assert(c[x as int].1);
            }
        }
        vstd::set_lib::lemma_len_subset(existing(c), r.to_set());
    }
}

proof fn lemma_no_first_difference(
    c: Seq<(u64, bool)>,
    n: nat,
    ra: Seq<usize>,
    rb: Seq<usize>,
    k: int,
)
    requires
        is_top_n(c, n, ra),
        is_top_n(c, n, rb),
        0 <= k < ra.len(),
        k < rb.len(),
        forall|a: int| 0 <= a < k ==> ra[a] == rb[a],
    ensures
        !comes_before(c, ra[k] as int, rb[k] as int),
{
    let x = ra[k];
    if !comes_before(c, ra[k] as int, rb[k] as int) {
    } else if rb.contains(x) {
        let q = choose|q: int| 0 <= q < rb.len() && rb[q] == x;
        if q < k {
            assert(comes_before(c, ra[q] as int, ra[k] as int));
        } else if q > k {
            assert(comes_before(c, rb[k] as int, rb[q] as int));
        }
    } else {
        assert(c[x as int].1);
        assert(comes_before(c, rb[k] as int, x as int));
    }
}

proof fn lemma_same_prefix(c: Seq<(u64, bool)>, n: nat, r1: Seq<usize>, r2: Seq<usize>, k: int)
    requires
        is_top_n(c, n, r1),
        is_top_n(c, n, r2),
        0 <= k <= r1.len(),
        k <= r2.len(),
    ensures
        forall|a: int| 0 <= a < k ==> r1[a] == r2[a],
    decreases k,
{
    if k > 0 {
        lemma_same_prefix(c, n, r1, r2, k - 1);
        let x = r1[k - 1] as int;
        let y = r2[k - 1] as int;
        if comes_before(c, x, y) {
            lemma_no_first_difference(c, n, r1, r2, k - 1);
        } else if comes_before(c, y, x) {
            lemma_no_first_difference(c, n, r2, r1, k - 1);
        }
    }
}

proof fn lemma_not_longer(c: Seq<(u64, bool)>, n: nat, ra: Seq<usize>, rb: Seq<usize>)
    requires
        is_top_n(c, n, ra),
        is_top_n(c, n, rb),
        forall|a: int| 0 <= a < rb.len() && a < ra.len() ==> ra[a] == rb[a],
    ensures
        ra.len() <= rb.len(),
{
    if ra.len() > rb.len() {
        let m = rb.len() as int;
        let x = ra[m];
        if rb.contains(x) {
            let q = choose|q: int| 0 <= q < rb.len() && rb[q] == x;
            assert(comes_before(c, ra[q] as int, ra[m] as int));
        } else {
            assert(c[x as int].1);
        }
    }
}

/// The top `n` is determined by the candidates: two lists that both meet
/// the contract of `top_n` are the same list.
pub proof fn lemma_top_n_unique(c: Seq<(u64, bool)>, n: nat, r1: Seq<usize>, r2: Seq<usize>)
    requires
        is_top_n(c, n, r1),
        is_top_n(c, n, r2),
    ensures
        r1 == r2,
{
    let m = if r1.len() <= r2.len() {
        r1.len() as int
    } else {
        r2.len() as int
    };
    lemma_same_prefix(c, n, r1, r2, m);
    lemma_not_longer(c, n, r1, r2);
    lemma_not_longer(c, n, r2, r1);
    assert(r1 =~= r2);
}

} // verus!
