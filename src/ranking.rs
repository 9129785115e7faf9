//! Ordering of scored items, rank assignment, the activity window and the
//! under-sampling penalty.
//!
//! Scores come in as `u64` keys that order as the scores do; ties are broken
//! by a second key and then by position, so every order here is total and
//! reproducible.
use vstd::prelude::*;

verus! {

/// Players with fewer surviving records than this have their rating scaled
/// down.
pub const MIN_TOTAL_RECORDS: usize = 10;

/// Item `j` comes before item `i`: higher key, then lower tie key, then
/// earlier position.
pub open spec fn comes_before(keys: Seq<u64>, ties: Seq<i64>, j: int, i: int) -> bool {
    keys[j] > keys[i] || (keys[j] == keys[i] && (ties[j] < ties[i] || (ties[j] == ties[i] && j
        < i)))
}

/// How many of the first `n` items that satisfy `sel` come before item `i`.
pub open spec fn count_before(keys: Seq<u64>, ties: Seq<i64>, sel: spec_fn(int) -> bool, i: int, n: int) -> nat
    decreases n,
{
    if n <= 0 {
        0
    } else {
        count_before(keys, ties, sel, i, n - 1) + if sel(n - 1) && comes_before(keys, ties, n - 1, i) {
            1nat
        } else {
            0nat
        }
    }
}

/// Every item is selected.
pub open spec fn everyone() -> spec_fn(int) -> bool {
    |j: int| true
}

/// Character-wise lexicographic order, which on UTF-8 text is the order of
/// `str`'s comparison operators.
pub open spec fn text_lt(a: Seq<char>, b: Seq<char>) -> bool
    decreases a.len(),
{
    if a.len() == 0 {
        b.len() > 0
    } else if b.len() == 0 {
        false
    } else if a[0] != b[0] {
        a[0] < b[0]
    } else {
        text_lt(a.drop_first(), b.drop_first())
    }
}

/// Whether `a` sorts before `b`.
pub fn text_less(a: &str, b: &str) -> (r: bool)
    ensures
        r == text_lt(a@, b@),
{
    let n = a.unicode_len();
    let m = b.unicode_len();
    let mut k: usize = 0;
    assert(a@.subrange(0, n as int) =~= a@);
    assert(b@.subrange(0, m as int) =~= b@);
    loop
        invariant
            n == a@.len(),
            m == b@.len(),
            k <= n,
            k <= m,
            text_lt(a@, b@) == text_lt(a@.subrange(k as int, n as int), b@.subrange(k as int, m as int)),
        decreases n - k,
    {
        let ghost sa = a@.subrange(k as int, n as int);
        let ghost sb = b@.subrange(k as int, m as int);
        if k == n {
            return k < m;
        }
        if k == m {
            return false;
        }
        let ca = a.get_char(k);
        let cb = b.get_char(k);
        assert(sa[0] == ca && sb[0] == cb);
        if ca != cb {
            return ca < cb;
        }
        assert(sa.drop_first() =~= a@.subrange(k + 1, n as int));
        assert(sb.drop_first() =~= b@.subrange(k + 1, m as int));
        k = k + 1;
    }
}

/// A player whose last activity is `last` counts as active for the window
/// starting at `cutoff`.
pub open spec fn active_spec(last: Seq<char>, cutoff: Seq<char>) -> bool {
    !text_lt(last, cutoff)
}

/// Whether a last activity of `last` falls at or after `cutoff`; both are
/// `YYYY-MM-DD HH:MM:SS`, so text order is time order.
pub fn is_active(last: &str, cutoff: &str) -> (r: bool)
    ensures
        r == active_spec(last@, cutoff@),
{
    !text_less(last, cutoff)
}

/// The number of selected items that come before item `i`.
fn position_among(keys: &Vec<u64>, ties: &Vec<i64>, sel: &Vec<bool>, i: usize) -> (r: usize)
    requires
        keys.len() == ties.len(),
        keys.len() == sel.len(),
        i < keys.len(),
    ensures
        r == count_before(keys@, ties@, |j: int| sel@[j], i as int, keys.len() as int),
        r < keys.len(),
{
    let n = keys.len();
    let ghost s = |j: int| sel@[j];
    let mut c: usize = 0;
    let mut j: usize = 0;
    while j < n
        invariant
            n == keys.len(),
            keys.len() == ties.len(),
            keys.len() == sel.len(),
            i < n,
            j <= n,
            s == (|j: int| sel@[j]),
            c == count_before(keys@, ties@, s, i as int, j as int),
            c <= j,
            j > i ==> c < j,
        decreases n - j,
    {
        let before = keys[j] > keys[i] || (keys[j] == keys[i] && (ties[j] < ties[i] || (ties[j]
            == ties[i] && j < i)));
        if sel[j] && before {
            c = c + 1;
        }
        j = j + 1;
    }
    c
}

/// Each item's 1-based position in the order of all items.
pub fn positions(keys: &Vec<u64>, ties: &Vec<i64>) -> (r: Vec<usize>)
    requires
        keys.len() == ties.len(),
    ensures
        r.len() == keys.len(),
        forall|i: int| 0 <= i < keys.len() ==> #[trigger] r[i] == count_before(
            keys@,
            ties@,
            everyone(),
            i,
            keys.len() as int,
        ) + 1,
{
    let n = keys.len();
    let mut sel: Vec<bool> = Vec::new();
    while sel.len() < n
        invariant
            sel.len() <= n,
            forall|j: int| 0 <= j < sel.len() ==> sel[j],
        decreases n - sel.len(),
    {
        sel.push(true);
    }
    let mut r: Vec<usize> = Vec::new();
    let mut i: usize = 0;
    while i < n
        invariant
            n == keys.len(),
            n == ties.len(),
            n == sel.len(),
            forall|j: int| 0 <= j < n ==> sel[j],
            i <= n,
            r.len() == i,
            forall|k: int| 0 <= k < i ==> #[trigger] r[k] == count_before(
                keys@,
                ties@,
                everyone(),
                k,
                n as int,
            ) + 1,
        decreases n - i,
    {
        let p = position_among(keys, ties, &sel, i);
        proof {
            lemma_count_same(keys@, ties@, |j: int| sel@[j], everyone(), i as int, n as int);
        }
        r.push(p + 1);
        i = i + 1;
    }
    r
}

/// Players whose last activity falls inside the window starting at `cutoff`.
pub open spec fn active_set(last: Seq<String>, cutoff: Seq<char>) -> spec_fn(int) -> bool {
    |j: int| active_spec(last[j]@, cutoff)
}

/// Each item's 1-based position among the active items, or 0 for an item
/// outside the activity window.
pub fn active_positions(keys: &Vec<u64>, ties: &Vec<i64>, last: &Vec<String>, cutoff: &str) -> (r: Vec<usize>)
    requires
        keys.len() == ties.len(),
        keys.len() == last.len(),
    ensures
        r.len() == keys.len(),
        forall|i: int| 0 <= i < keys.len() ==> #[trigger] r[i] == if active_spec(last[i]@, cutoff@) {
            count_before(keys@, ties@, active_set(last@, cutoff@), i, keys.len() as int) + 1
        } else {
            0
        },
{
    let n = keys.len();
    let mut sel: Vec<bool> = Vec::new();
    while sel.len() < n
        invariant
            n == last.len(),
            sel.len() <= n,
            forall|j: int| 0 <= j < sel.len() ==> #[trigger] sel[j] == active_spec(last[j]@, cutoff@),
        decreases n - sel.len(),
    {
        let a = is_active(last[sel.len()].as_str(), cutoff);
        sel.push(a);
    }
    let mut r: Vec<usize> = Vec::new();
    let mut i: usize = 0;
    while i < n
        invariant
            n == keys.len(),
            n == ties.len(),
            n == sel.len(),
            n == last.len(),
            forall|j: int| 0 <= j < n ==> #[trigger] sel[j] == active_spec(last[j]@, cutoff@),
            i <= n,
            r.len() == i,
            forall|k: int| 0 <= k < i ==> #[trigger] r[k] == if active_spec(last[k]@, cutoff@) {
                count_before(keys@, ties@, active_set(last@, cutoff@), k, n as int) + 1
            } else {
                0
            },
        decreases n - i,
    {
        if sel[i] {
            let p = position_among(keys, ties, &sel, i);
            proof {
                lemma_count_same(keys@, ties@, |j: int| sel@[j], active_set(last@, cutoff@), i as int, n as int);
            }
            r.push(p + 1);
        } else {
            r.push(0);
        }
        i = i + 1;
    }
    r
}

/// The factor `(num, den)` that a player's rating is multiplied by, for a
/// player with `count` surviving records.
pub open spec fn penalty_spec(count: nat) -> (nat, nat) {
    if count < MIN_TOTAL_RECORDS {
        (count, MIN_TOTAL_RECORDS as nat)
    } else {
        (1, 1)
    }
}

/// The under-sampling factor for a player with `count` surviving records:
/// `count / 10` below ten records, one from ten on.
pub fn penalty_ratio(count: usize) -> (r: (usize, usize))
    ensures
        (r.0 as nat, r.1 as nat) == penalty_spec(count as nat),
        r.1 > 0,
{
    if count < MIN_TOTAL_RECORDS {
        (count, MIN_TOTAL_RECORDS)
    } else {
        (1, 1)
    }
}

proof fn lemma_text_lt_irreflexive(a: Seq<char>)
    ensures
        !text_lt(a, a),
    decreases a.len(),
{
    if a.len() > 0 {
        lemma_text_lt_irreflexive(a.drop_first());
    }
}

proof fn lemma_text_lt_total(a: Seq<char>, b: Seq<char>)
    ensures
        text_lt(a, b) || text_lt(b, a) || a == b,
    decreases a.len(),
{
    if a.len() > 0 && b.len() > 0 && a[0] == b[0] {
        lemma_text_lt_total(a.drop_first(), b.drop_first());
        if a.drop_first() == b.drop_first() {
            assert(a =~= seq![a[0]] + a.drop_first());
            assert(b =~= seq![b[0]] + b.drop_first());
        }
    } else if a.len() == 0 && b.len() == 0 {
        assert(a =~= b);
    }
}

proof fn lemma_text_lt_transitive(a: Seq<char>, b: Seq<char>, c: Seq<char>)
    requires
        text_lt(a, b),
        text_lt(b, c),
    ensures
        text_lt(a, c),
    decreases a.len(),
{
    if a.len() > 0 && b.len() > 0 && c.len() > 0 && a[0] == b[0] && b[0] == c[0] {
        lemma_text_lt_transitive(a.drop_first(), b.drop_first(), c.drop_first());
    }
}

/// The latest of a player's record dates.
pub fn latest(dates: &Vec<String>) -> (r: String)
    requires
        dates.len() > 0,
    ensures
        exists|k: int| 0 <= k < dates.len() && r@ == #[trigger] dates[k]@,
        forall|k: int| 0 <= k < dates.len() ==> !text_lt(r@, #[trigger] dates[k]@),
{
    let mut b: usize = 0;
    let mut i: usize = 1;
    proof {
        lemma_text_lt_irreflexive(dates[0]@);
    }
    while i < dates.len()
        invariant
            0 <= b < i <= dates.len(),
            forall|k: int| 0 <= k < i ==> !text_lt(dates[b as int]@, #[trigger] dates[k]@),
        decreases dates.len() - i,
    {
        if text_less(dates[b].as_str(), dates[i].as_str()) {
            proof {
                let bi = dates[i as int]@;
                lemma_text_lt_irreflexive(bi);
                assert forall|k: int| 0 <= k < i + 1 implies !text_lt(bi, #[trigger] dates[k]@) by {
                    let dk = dates[k]@;
                    lemma_text_lt_total(dk, dates[b as int]@);
                    if text_lt(bi, dk) {
                        if text_lt(dk, dates[b as int]@) {
                            lemma_text_lt_transitive(bi, dk, dates[b as int]@);
                            lemma_text_lt_transitive(bi, dates[b as int]@, bi);
                        } else if dk == dates[b as int]@ {
                            lemma_text_lt_transitive(bi, dk, bi);
                        }
                    }
                }
            }
            b = i;
        }
        i = i + 1;
    }
    dates[b].clone()
}

proof fn lemma_count_grows(keys: Seq<u64>, ties: Seq<i64>, sel: spec_fn(int) -> bool, i: int, j: int, n: int)
    requires
        0 <= i < keys.len(),
        0 <= j < keys.len(),
        keys.len() == ties.len(),
        comes_before(keys, ties, i, j),
        sel(i),
    ensures
        count_before(keys, ties, sel, j, n) >= count_before(keys, ties, sel, i, n) + if i < n {
            1int
        } else {
            0int
        },
    decreases n,
{
    if n > 0 {
        lemma_count_grows(keys, ties, sel, i, j, n - 1);
    }
}

/// No two selected items share a position, so the ranks are a strict order
/// with no ties left to chance.
pub proof fn lemma_positions_distinct(
    keys: Seq<u64>,
    ties: Seq<i64>,
    sel: spec_fn(int) -> bool,
    i: int,
    j: int,
)
    requires
        keys.len() == ties.len(),
        0 <= i < keys.len(),
        0 <= j < keys.len(),
        i != j,
        sel(i),
        sel(j),
    ensures
        count_before(keys, ties, sel, i, keys.len() as int) != count_before(keys, ties, sel, j, keys.len() as int),
{
    let n = keys.len() as int;
    if comes_before(keys, ties, i, j) {
        lemma_count_grows(keys, ties, sel, i, j, n);
    } else {
        lemma_count_grows(keys, ties, sel, j, i, n);
    }
}

proof fn lemma_count_same(keys: Seq<u64>, ties: Seq<i64>, s1: spec_fn(int) -> bool, s2: spec_fn(int) -> bool, i: int, n: int)
    requires
        forall|j: int| 0 <= j < n ==> #[trigger] s1(j) == s2(j),
    ensures
        count_before(keys, ties, s1, i, n) == count_before(keys, ties, s2, i, n),
    decreases n,
{
    if n > 0 {
        lemma_count_same(keys, ties, s1, s2, i, n - 1);
    }
}

} // verus!
