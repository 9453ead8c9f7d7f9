//! String similarity metrics: edit distance and Jaro-Winkler, as exact ratios.
use vstd::prelude::*;
use vstd::string::StrSliceExecFns;

verus! {

/// The longest text, in characters, that the scores are computed on: up to it every
/// ratio, and every squared confidence, is exact in fixed-width integers.
pub const MAX_TEXT_LEN: usize = 16384;

/// A non-negative rational number `num / den`.
#[derive(Clone, Copy, Debug, PartialEq, Eq, Structural)]
pub struct Ratio {
    pub num: u64,
    pub den: u64,
}

impl Ratio {
    pub open spec fn pair(self) -> (int, int) {
        (self.num as int, self.den as int)
    }
}

/// The ratio pair of an optional ratio.
pub open spec fn opt_pair(r: Option<Ratio>) -> Option<(int, int)> {
    match r {
        Some(x) => Some(x.pair()),
        None => None,
    }
}

/// Minimum number of single-character insertions, deletions and substitutions
/// that turn `a` into `b`.
pub open spec fn edit_distance(a: Seq<char>, b: Seq<char>) -> nat
    decreases a.len() + b.len(),
{
    if a.len() == 0 {
        b.len()
    } else if b.len() == 0 {
        a.len()
    } else {
        let del = edit_distance(a.drop_last(), b) + 1;
        let ins = edit_distance(a, b.drop_last()) + 1;
        let sub = edit_distance(a.drop_last(), b.drop_last()) + if a.last() == b.last() {
            0nat
        } else {
            1nat
        };
        if del <= ins && del <= sub {
            del
        } else if ins <= sub {
            ins
        } else {
            sub
        }
    }
}

/// Edit distance with the short cut that an empty side gives 0.
pub open spec fn levenshtein(a: Seq<char>, b: Seq<char>) -> nat {
    if a.len() == 0 || b.len() == 0 {
        0
    } else {
        edit_distance(a, b)
    }
}

pub open spec fn max_len(a: Seq<char>, b: Seq<char>) -> int {
    if a.len() >= b.len() {
        a.len() as int
    } else {
        b.len() as int
    }
}

/// `(L - d) / L` with `L` the longer length and `d` the distance; `0` when a side is empty.
pub open spec fn levenshtein_ratio(a: Seq<char>, b: Seq<char>) -> (int, int) {
    if a.len() == 0 || b.len() == 0 {
        (0, 1)
    } else {
        (max_len(a, b) - levenshtein(a, b), max_len(a, b))
    }
}

/// The edit distance is symmetric.
pub proof fn lemma_edit_distance_symmetric(a: Seq<char>, b: Seq<char>)
    ensures
        edit_distance(a, b) == edit_distance(b, a),
    decreases a.len() + b.len(),
{
    if a.len() > 0 && b.len() > 0 {
        lemma_edit_distance_symmetric(a.drop_last(), b);
        lemma_edit_distance_symmetric(a, b.drop_last());
        lemma_edit_distance_symmetric(a.drop_last(), b.drop_last());
    }
}

/// The edit distance never exceeds the longer length.
pub proof fn lemma_edit_distance_bound(a: Seq<char>, b: Seq<char>)
    ensures
        edit_distance(a, b) <= max_len(a, b),
    decreases a.len() + b.len(),
{
    if a.len() > 0 && b.len() > 0 {
        lemma_edit_distance_bound(a.drop_last(), b.drop_last());
    }
}

/// A text equals itself at no cost.
pub proof fn lemma_edit_distance_self(a: Seq<char>)
    ensures
        edit_distance(a, a) == 0,
    decreases a.len(),
{
    if a.len() > 0 {
        lemma_edit_distance_self(a.drop_last());
    }
}

/// The characters of a string slice.
pub fn chars_of(s: &str) -> (r: Vec<char>)
    ensures
        r@ == s@,
{
    let n = s.unicode_len();
    let mut res: Vec<char> = Vec::new();
    let mut i: usize = 0;
    while i < n
        invariant
            n == s@.len(),
            0 <= i <= n,
            res@ == s@.take(i as int),
        decreases n - i,
    {
        res.push(s.get_char(i));
        i = i + 1;
        assert(res@ =~= s@.take(i as int));
    }
    assert(s@.take(n as int) =~= s@);
    res
}

/// Edit distance of two character sequences, with one rolling row over the shorter one.
fn edit_distance_rows(a: &Vec<char>, b: &Vec<char>) -> (r: usize)
    requires
        a@.len() <= b@.len() < usize::MAX,
    ensures
        r == edit_distance(a@, b@),
{
    let alen = a.len();
    let blen = b.len();
    let mut row: Vec<usize> = Vec::new();
    let mut j: usize = 0;
    while j <= alen
        invariant
            0 <= j <= alen + 1,
            alen == a@.len(),
            alen < usize::MAX,
            row@.len() == j,
            forall|k: int| 0 <= k < j ==> row@[k] == edit_distance(a@.take(k), b@.take(0)),
        decreases alen + 1 - j,
    {
        proof {
            assert(b@.take(0).len() == 0);
        }
        row.push(j);
        j = j + 1;
    }
    let mut i: usize = 1;
    while i <= blen
        invariant
            1 <= i <= blen + 1,
            alen == a@.len(),
            blen == b@.len(),
            alen <= blen < usize::MAX,
            row@.len() == alen + 1,
            forall|k: int|
                0 <= k <= alen ==> #[trigger] row@[k] == edit_distance(a@.take(k), b@.take(i - 1)),
        decreases blen + 1 - i,
    {
        let c2 = b[i - 1];
        let mut diag: usize = row[0];
        row.set(0, i);
        proof {
            assert(a@.take(0).len() == 0);
        }
        let mut j: usize = 1;
        while j <= alen
            invariant
                1 <= j <= alen + 1,
                1 <= i <= blen,
                alen == a@.len(),
                blen == b@.len(),
                alen <= blen < usize::MAX,
                c2 == b@[i - 1],
                row@.len() == alen + 1,
                diag == edit_distance(a@.take(j - 1), b@.take(i - 1)),
                forall|k: int|
                    0 <= k < j ==> #[trigger] row@[k] == edit_distance(a@.take(k), b@.take(i as int)),
                forall|k: int|
                    j <= k <= alen ==> #[trigger] row@[k] == edit_distance(a@.take(k), b@.take(i - 1)),
            decreases alen + 1 - j,
        {
            let up = row[j];
            let left = row[j - 1];
            proof {
                let x = a@.take(j as int);
                let y = b@.take(i as int);
                assert(x.drop_last() =~= a@.take(j - 1));
                assert(y.drop_last() =~= b@.take(i - 1));
                assert(x.last() == a@[j - 1]);
                assert(y.last() == b@[i - 1]);
                lemma_edit_distance_bound(x.drop_last(), y.drop_last());
                lemma_edit_distance_bound(x, y.drop_last());
                lemma_edit_distance_bound(x.drop_last(), y);
            }
            let cost: usize = if a[j - 1] == c2 { 0 } else { 1 };
            let del = left + 1;
            let ins = up + 1;
            let sub = diag + cost;
            let v = if del <= ins && del <= sub {
                del
            } else if ins <= sub {
                ins
            } else {
                sub
            };
            diag = up;
            row.set(j, v);
            j = j + 1;
        }
        i = i + 1;
    }
    proof {
        assert(a@.take(alen as int) =~= a@);
        assert(b@.take(blen as int) =~= b@);
    }
    row[alen]
}

/// Levenshtein distance between `a` and `b`, or 0 when either is empty.
pub fn levenshtein_distance(a: &str, b: &str) -> (r: usize)
    requires
        a@.len() < usize::MAX,
        b@.len() < usize::MAX,
    ensures
        r == levenshtein(a@, b@),
{
    let va = chars_of(a);
    let vb = chars_of(b);
    if va.len() == 0 || vb.len() == 0 {
        return 0;
    }
    if va.len() > vb.len() {
        proof {
            lemma_edit_distance_symmetric(a@, b@);
        }
        edit_distance_rows(&vb, &va)
    } else {
        edit_distance_rows(&va, &vb)
    }
}

/// Levenshtein similarity `(L - d) / L`, where `L` is the longer length.
pub fn levenshtein_similarity(a: &str, b: &str) -> (r: Ratio)
    requires
        a@.len() < usize::MAX,
        b@.len() < usize::MAX,
    ensures
        r.pair() == levenshtein_ratio(a@, b@),
        r.num <= r.den,
        0 < r.den,
        a@.len() > 0 && b@.len() > 0 ==> r.den == max_len(a@, b@),
{
    let la = a.unicode_len();
    let lb = b.unicode_len();
    if la == 0 || lb == 0 {
        return Ratio { num: 0, den: 1 };
    }
    let len = if la >= lb { la } else { lb };
    let dist = levenshtein_distance(a, b);
    proof {
        lemma_edit_distance_bound(a@, b@);
    }
    Ratio { num: (len - dist) as u64, den: len as u64 }
}

/// Half the longer length, less one, and never below zero: how far apart two
/// characters may stand and still count as a Jaro match.
pub open spec fn match_window(n1: int, n2: int) -> int {
    let m = if n1 >= n2 { n1 } else { n2 };
    if m / 2 >= 1 {
        m / 2 - 1
    } else {
        0
    }
}

/// The first index `j` in `lo..=hi` where `b[j] == c` and `b` is not matched yet.
pub open spec fn first_free(c: char, b: Seq<char>, taken: Seq<bool>, lo: int, hi: int) -> Option<int>
    decreases hi + 1 - lo,
{
    if lo > hi {
        None
    } else if !taken[lo] && b[lo] == c {
        Some(lo)
    } else {
        first_free(c, b, taken, lo + 1, hi)
    }
}

/// Where the character `a[i]` finds its Jaro match in `b`, given which of `b` are taken.
pub open spec fn jaro_pick(a: Seq<char>, b: Seq<char>, taken: Seq<bool>, i: int) -> Option<int> {
    let w = match_window(a.len() as int, b.len() as int);
    let lo = if i >= w { i - w } else { 0 };
    let hi = if i + w <= b.len() - 1 { i + w } else { b.len() - 1 };
    first_free(a[i], b, taken, lo, hi)
}

/// Which characters of `b` are matched once the first `i` characters of `a` are processed.
pub open spec fn jaro_taken(a: Seq<char>, b: Seq<char>, i: int) -> Seq<bool>
    decreases i,
{
    if i <= 0 {
        Seq::new(b.len(), |k: int| false)
    } else {
        let t = jaro_taken(a, b, i - 1);
        match jaro_pick(a, b, t, i - 1) {
            Some(j) => t.update(j, true),
            None => t,
        }
    }
}

/// Which characters of `a` found a match.
pub open spec fn jaro_flags(a: Seq<char>, b: Seq<char>) -> Seq<bool> {
    Seq::new(a.len(), |i: int| jaro_pick(a, b, jaro_taken(a, b, i), i) is Some)
}

/// The characters of `s` at the first `n` positions whose flag is set, in order.
pub open spec fn flagged(s: Seq<char>, f: Seq<bool>, n: int) -> Seq<char>
    decreases n,
{
    if n <= 0 {
        Seq::empty()
    } else if f[n - 1] {
        flagged(s, f, n - 1).push(s[n - 1])
    } else {
        flagged(s, f, n - 1)
    }
}

/// Number of positions below `n` where `x` and `y` differ.
pub open spec fn mismatches(x: Seq<char>, y: Seq<char>, n: int) -> int
    decreases n,
{
    if n <= 0 {
        0
    } else {
        mismatches(x, y, n - 1) + if x[n - 1] != y[n - 1] {
            1int
        } else {
            0int
        }
    }
}

/// Length of the common prefix of `a` and `b` from `i` on, up to `lim`.
pub open spec fn prefix_from(a: Seq<char>, b: Seq<char>, i: int, lim: int) -> int
    decreases lim - i,
{
    if i >= lim || a[i] != b[i] {
        i
    } else {
        prefix_from(a, b, i + 1, lim)
    }
}

pub open spec fn min_int(x: int, y: int) -> int {
    if x <= y {
        x
    } else {
        y
    }
}

/// Jaro weight `(m/|a| + m/|b| + (m - t)/m) / 3` as a pair, where `m` is the number of
/// matched characters and `t` half the number of matched characters out of order.
pub open spec fn jaro_weight(a: Seq<char>, b: Seq<char>) -> (int, int) {
    let n1 = a.len() as int;
    let n2 = b.len() as int;
    let m1 = flagged(a, jaro_flags(a, b), n1);
    let m2 = flagged(b, jaro_taken(a, b, n1), n2);
    let m = m1.len() as int;
    let t = mismatches(m1, m2, min_int(m1.len() as int, m2.len() as int)) / 2;
    (m * n2 * m + m * n1 * m + (m - t) * n1 * n2, 3 * n1 * n2 * m)
}

/// Jaro-Winkler similarity of two texts already case-folded as asked: `0` when either is
/// empty or nothing matches, `1` when they are equal, else the Jaro weight with the
/// Winkler boost of a tenth per common leading character (up to four) above `0.7`.
pub open spec fn jaro_winkler(a: Seq<char>, b: Seq<char>) -> (int, int) {
    if a.len() == 0 || b.len() == 0 {
        (0, 1)
    } else if a == b {
        (1, 1)
    } else {
        let w = jaro_weight(a, b);
        if w.1 == 0 {
            (0, 1)
        } else if 10 * w.0 > 7 * w.1 {
            let l = prefix_from(a, b, 0, min_int(4, min_int(a.len() as int, b.len() as int)));
            (10 * w.0 + l * (w.1 - w.0), 10 * w.1)
        } else {
            w
        }
    }
}

/// What `str::to_uppercase` returns for a text.
pub uninterp spec fn upper_of(s: Seq<char>) -> Seq<char>;

/// Relies on `str::to_uppercase`: the upper-cased text, a function of the text alone.
#[verifier::external_body]
fn to_upper(s: &str) -> (r: String)
    ensures
        r@ == upper_of(s@),
{
    s.to_uppercase()
}

/// The text compared by Jaro-Winkler: upper-cased unless the comparison is case-sensitive
/// (which it is by default).
pub open spec fn jw_folded(s: Seq<char>, options: Option<bool>) -> Seq<char> {
    if options == Some(false) {
        upper_of(s)
    } else {
        s
    }
}

/// Jaro-Winkler similarity of `s1` and `s2`, with `None` when a folded text is longer
/// than `MAX_TEXT_LEN` (and the two differ).
pub open spec fn jaro_winkler_result(s1: Seq<char>, s2: Seq<char>, options: Option<bool>) -> Option<(int, int)> {
    let a = jw_folded(s1, options);
    let b = jw_folded(s2, options);
    if s1.len() == 0 || s2.len() == 0 {
        Some((0, 1))
    } else if a == b {
        Some((1, 1))
    } else if a.len() > MAX_TEXT_LEN || b.len() > MAX_TEXT_LEN {
        None
    } else {
        Some(jaro_winkler(a, b))
    }
}

proof fn lemma_first_free_range(c: char, b: Seq<char>, taken: Seq<bool>, lo: int, hi: int)
    requires
        0 <= lo,
        hi < b.len(),
        taken.len() == b.len(),
    ensures
        first_free(c, b, taken, lo, hi) matches Some(j) ==> lo <= j <= hi && !taken[j] && b[j] == c,
    decreases hi + 1 - lo,
{
    if lo <= hi && !(!taken[lo] && b[lo] == c) {
        lemma_first_free_range(c, b, taken, lo + 1, hi);
    }
}

proof fn lemma_jaro_taken_len(a: Seq<char>, b: Seq<char>, i: int)
    requires
        0 <= i <= a.len(),
        b.len() > 0,
    ensures
        jaro_taken(a, b, i).len() == b.len(),
    decreases i,
{
    if i > 0 {
        lemma_jaro_taken_len(a, b, i - 1);
        let t = jaro_taken(a, b, i - 1);
        let w = match_window(a.len() as int, b.len() as int);
        let lo = if i - 1 >= w { i - 1 - w } else { 0 };
        let hi = if i - 1 + w <= b.len() - 1 { i - 1 + w } else { b.len() - 1 };
        lemma_first_free_range(a[i - 1], b, t, lo, hi);
    }
}

proof fn lemma_flagged_len(s: Seq<char>, f: Seq<bool>, n: int)
    requires
        0 <= n,
    ensures
        flagged(s, f, n).len() <= n,
    decreases n,
{
    if n > 0 {
        lemma_flagged_len(s, f, n - 1);
    }
}

proof fn lemma_flagged_update(s: Seq<char>, f: Seq<bool>, j: int, n: int)
    requires
        0 <= j < n <= f.len(),
        !f[j],
    ensures
        flagged(s, f.update(j, true), n).len() == flagged(s, f, n).len() + 1,
    decreases n,
{
    if n - 1 > j {
        lemma_flagged_update(s, f, j, n - 1);
    } else {
        lemma_flagged_same(s, f, f.update(j, true), n - 1);
    }
}

proof fn lemma_flagged_same(s: Seq<char>, f: Seq<bool>, g: Seq<bool>, n: int)
    requires
        0 <= n <= f.len(),
        n <= g.len(),
        forall|k: int| 0 <= k < n ==> f[k] == g[k],
    ensures
        flagged(s, f, n) == flagged(s, g, n),
    decreases n,
{
    if n > 0 {
        lemma_flagged_same(s, f, g, n - 1);
    }
}

/// Each character of `a` that finds a match takes exactly one character of `b`.
proof fn lemma_match_counts(a: Seq<char>, b: Seq<char>, i: int)
    requires
        0 <= i <= a.len(),
        b.len() > 0,
    ensures
        flagged(b, jaro_taken(a, b, i), b.len() as int).len() == flagged(a, jaro_flags(a, b), i).len(),
    decreases i,
{
    if i == 0 {
        lemma_flagged_zero(b, jaro_taken(a, b, 0), b.len() as int);
    } else {
        lemma_match_counts(a, b, i - 1);
        lemma_jaro_taken_len(a, b, i - 1);
        let t = jaro_taken(a, b, i - 1);
        let w = match_window(a.len() as int, b.len() as int);
        let lo = if i - 1 >= w { i - 1 - w } else { 0 };
        let hi = if i - 1 + w <= b.len() - 1 { i - 1 + w } else { b.len() - 1 };
        lemma_first_free_range(a[i - 1], b, t, lo, hi);
        match jaro_pick(a, b, t, i - 1) {
            Some(j) => {
                lemma_flagged_update(b, t, j, b.len() as int);
            },
            None => {},
        }
    }
}

proof fn lemma_flagged_zero(s: Seq<char>, f: Seq<bool>, n: int)
    requires
        0 <= n <= f.len(),
        forall|k: int| 0 <= k < n ==> !f[k],
    ensures
        flagged(s, f, n).len() == 0,
    decreases n,
{
    if n > 0 {
        lemma_flagged_zero(s, f, n - 1);
    }
}

/// The characters of `s` whose flag is set, in order.
fn flagged_chars(s: &Vec<char>, f: &Vec<bool>) -> (r: Vec<char>)
    requires
        f@.len() == s@.len(),
    ensures
        r@ == flagged(s@, f@, s@.len() as int),
{
    let mut res: Vec<char> = Vec::new();
    let mut i: usize = 0;
    while i < s.len()
        invariant
            0 <= i <= s@.len(),
            f@.len() == s@.len(),
            res@ == flagged(s@, f@, i as int),
        decreases s@.len() - i,
    {
        if f[i] {
            res.push(s[i]);
        }
        i = i + 1;
    }
    res
}

/// Jaro-Winkler similarity of two distinct non-empty texts, already case-folded.
pub fn jaro_winkler_chars(a: &Vec<char>, b: &Vec<char>) -> (r: Ratio)
    requires
        0 < a@.len() <= MAX_TEXT_LEN,
        0 < b@.len() <= MAX_TEXT_LEN,
        a@ != b@,
    ensures
        r.pair() == jaro_winkler(a@, b@),
        r.num <= r.den,
        0 < r.den <= 30 * MAX_TEXT_LEN * MAX_TEXT_LEN * MAX_TEXT_LEN,
{
    let n1 = a.len();
    let n2 = b.len();
    let longest = if n1 >= n2 { n1 } else { n2 };
    let w: usize = if longest / 2 >= 1 { longest / 2 - 1 } else { 0 };
    let mut flags1: Vec<bool> = Vec::new();
    let mut taken: Vec<bool> = Vec::new();
    let mut k: usize = 0;
    while k < n2
        invariant
            0 <= k <= n2,
            n2 == b@.len(),
            taken@ == Seq::new(k as nat, |q: int| false),
        decreases n2 - k,
    {
        taken.push(false);
        k = k + 1;
        assert(taken@ =~= Seq::new(k as nat, |q: int| false));
    }
    assert(taken@ =~= jaro_taken(a@, b@, 0));
    let mut i: usize = 0;
    while i < n1
        invariant
            0 <= i <= n1,
            n1 == a@.len(),
            n2 == b@.len(),
            0 < n1 <= MAX_TEXT_LEN,
            0 < n2 <= MAX_TEXT_LEN,
            w == match_window(n1 as int, n2 as int),
            taken@ == jaro_taken(a@, b@, i as int),
            flags1@ == jaro_flags(a@, b@).take(i as int),
        decreases n1 - i,
    {
        proof {
            lemma_jaro_taken_len(a@, b@, i as int);
        }
        let c = a[i];
        let lo: usize = if i >= w { i - w } else { 0 };
        let hi: usize = if i + w <= n2 - 1 { i + w } else { n2 - 1 };
        let ghost t0 = taken@;
        let mut j: usize = lo;
        let mut found: bool = false;
        while j <= hi
            invariant_except_break
                taken@ == t0,
                !found,
            invariant
                lo <= j,
                j <= hi + 1 || j == lo,
                hi < n2,
                n2 == b@.len(),
                t0.len() == n2,
                first_free(c, b@, t0, lo as int, hi as int) == first_free(c, b@, t0, j as int, hi as int),
            ensures
                found ==> first_free(c, b@, t0, lo as int, hi as int) == Some(j as int) && taken@ == t0.update(j as int, true),
                !found ==> first_free(c, b@, t0, lo as int, hi as int) is None && taken@ == t0,
            decreases hi + 1 - j,
        {
            if !taken[j] && b[j] == c {
                taken.set(j, true);
                found = true;
                break;
            }
            j = j + 1;
        }
        proof {
            assert(jaro_pick(a@, b@, t0, i as int) == first_free(c, b@, t0, lo as int, hi as int));
            assert(jaro_flags(a@, b@)[i as int] == found);
        }
        flags1.push(found);
        i = i + 1;
        assert(flags1@ =~= jaro_flags(a@, b@).take(i as int));
    }
    assert(flags1@ =~= jaro_flags(a@, b@));
    proof {
        lemma_jaro_taken_len(a@, b@, n1 as int);
    }
    let m1 = flagged_chars(a, &flags1);
    let m2 = flagged_chars(b, &taken);
    proof {
        lemma_flagged_len(a@, flags1@, n1 as int);
        lemma_flagged_len(b@, taken@, n2 as int);
    }
    let m = m1.len();
    let common = if m1.len() <= m2.len() { m1.len() } else { m2.len() };
    let mut trans: usize = 0;
    let mut q: usize = 0;
    while q < common
        invariant
            0 <= q <= common,
            common == min_int(m1@.len() as int, m2@.len() as int),
            common <= MAX_TEXT_LEN,
            trans == mismatches(m1@, m2@, q as int),
            trans <= q,
        decreases common - q,
    {
        if m1[q] != m2[q] {
            trans = trans + 1;
        }
        q = q + 1;
    }
    if m == 0 {
        proof {
            assert(jaro_weight(a@, b@).1 == 0);
        }
        return Ratio { num: 0, den: 1 };
    }
    let t = trans / 2;
    let mm = m as u64;
    let x1 = n1 as u64;
    let x2 = n2 as u64;
    let tt = t as u64;
    proof {
        lemma_match_counts(a@, b@, n1 as int);
        assert(mm <= x1 && mm <= x2 && x1 <= 16384 && x2 <= 16384 && 0 < mm);
        assert(mm * x2 <= 16384 * 16384 && mm * x1 <= 16384 * 16384 && x1 * x2 <= 16384 * 16384) by (nonlinear_arith)
            requires mm <= x1, x1 <= 16384, x2 <= 16384, 0 < mm;
        assert(mm * x2 * mm <= 16384 * 16384 * 16384) by (nonlinear_arith)
            requires mm <= x1, x1 <= 16384, x2 <= 16384, 0 < mm;
        assert(mm * x1 * mm <= 16384 * 16384 * 16384) by (nonlinear_arith)
            requires mm <= x1, x1 <= 16384, x2 <= 16384, 0 < mm;
        assert((mm - tt) * x1 * x2 <= 16384 * 16384 * 16384) by (nonlinear_arith)
            requires mm <= x1, x1 <= 16384, x2 <= 16384, tt <= mm;
        assert(mm * x2 * mm <= mm * x1 * x2) by (nonlinear_arith)
            requires mm <= x1, x1 <= 16384, x2 <= 16384, 0 < mm;
        assert(mm * x1 * mm <= mm * x1 * x2) by (nonlinear_arith)
            requires mm <= x2, x1 <= 16384, x2 <= 16384, 0 < mm;
        assert((mm - tt) * x1 * x2 <= mm * x1 * x2) by (nonlinear_arith)
            requires tt <= mm, 0 < x1, 0 < x2;
        assert(0 < x1 * x2 * mm <= 16384 * 16384 * 16384) by (nonlinear_arith)
            requires mm <= x1, x1 <= 16384, x2 <= 16384, 0 < mm, 0 < x2;
    }
    proof {
        assert((mm - tt) * x1 <= 16384 * 16384) by (nonlinear_arith)
            requires mm <= x1, x1 <= 16384, tt <= mm;
        assert(3 * x1 * x2 <= 3 * 16384 * 16384) by (nonlinear_arith)
            requires x1 <= 16384, x2 <= 16384;
        assert(3 * x1 * x2 * mm <= 3 * 16384 * 16384 * 16384) by (nonlinear_arith)
            requires x1 <= 16384, x2 <= 16384, mm <= 16384;
    }
    let num = mm * x2 * mm + mm * x1 * mm + (mm - tt) * x1 * x2;
    let den = 3 * x1 * x2 * mm;
    assert(num <= den) by (nonlinear_arith)
        requires
            num == mm * x2 * mm + mm * x1 * mm + (mm - tt) * x1 * x2,
            den == 3 * x1 * x2 * mm,
            mm <= x1,
            mm <= x2,
            tt <= mm,
    ;
    assert(jaro_weight(a@, b@) == (num as int, den as int));
    assert(den > 0) by (nonlinear_arith)
        requires den == 3 * x1 * x2 * mm, x1 > 0, x2 > 0, mm > 0;
    if 10 * num > 7 * den {
        let lim: usize = if n1 <= n2 { n1 } else { n2 };
        let lim: usize = if lim <= 4 { lim } else { 4 };
        let mut l: usize = 0;
        while l < lim && a[l] == b[l]
            invariant
                0 <= l <= lim,
                lim <= n1,
                lim <= n2,
                lim <= 4,
                n1 == a@.len(),
                n2 == b@.len(),
                prefix_from(a@, b@, 0, lim as int) == prefix_from(a@, b@, l as int, lim as int),
            decreases lim - l,
        {
            l = l + 1;
        }
        let ll = l as u64;
        proof {
            assert(ll * (den - num) <= 4 * den) by (nonlinear_arith)
                requires ll <= 4, num <= den;
        }
        assert(10 * num + ll * (den - num) <= 10 * den) by (nonlinear_arith)
            requires ll <= 4, num <= den;
        assert(ll == prefix_from(a@, b@, 0, min_int(4, min_int(n1 as int, n2 as int))));
        Ratio { num: 10 * num + ll * (den - num), den: 10 * den }
    } else {
        Ratio { num, den }
    }
}

/// Jaro-Winkler similarity of `s1` and `s2`; `options` is `Some(false)` for a
/// case-insensitive comparison, which upper-cases both texts first.
pub fn jaro_winkler_similarity(s1: &str, s2: &str, options: Option<bool>) -> (r: Option<Ratio>)
    ensures
        opt_pair(r) == jaro_winkler_result(s1@, s2@, options),
        r matches Some(x) ==> x.num <= x.den && 0 < x.den <= 30 * MAX_TEXT_LEN * MAX_TEXT_LEN
            * MAX_TEXT_LEN,
{
    let case_sensitive = match options {
        Some(v) => v,
        None => true,
    };
    if s1.unicode_len() == 0 || s2.unicode_len() == 0 {
        return Some(Ratio { num: 0, den: 1 });
    }
    let (a, b) = if !case_sensitive {
        (chars_of(to_upper(s1).as_str()), chars_of(to_upper(s2).as_str()))
    } else {
        (chars_of(s1), chars_of(s2))
    };
    if vec_eq(&a, &b) {
        return Some(Ratio { num: 1, den: 1 });
    }
    if a.len() > MAX_TEXT_LEN || b.len() > MAX_TEXT_LEN {
        return None;
    }
    if a.len() == 0 || b.len() == 0 {
        return Some(Ratio { num: 0, den: 1 });
    }
    Some(jaro_winkler_chars(&a, &b))
}

/// Whether two character sequences are equal.
fn vec_eq(a: &Vec<char>, b: &Vec<char>) -> (r: bool)
    ensures
        r == (a@ == b@),
{
    if a.len() != b.len() {
        return false;
    }
    let mut i: usize = 0;
    while i < a.len()
        invariant
            0 <= i <= a@.len(),
            a@.len() == b@.len(),
            a@.take(i as int) == b@.take(i as int),
        decreases a@.len() - i,
    {
        if a[i] != b[i] {
            assert(a@[i as int] != b@[i as int]);
            return false;
        }
        i = i + 1;
        assert(a@.take(i as int) =~= b@.take(i as int)) by {
            assert(a@.take(i - 1) =~= a@.take(i as int).drop_last());
            assert(b@.take(i - 1) =~= b@.take(i as int).drop_last());
        }
    }
    assert(a@ =~= a@.take(a@.len() as int));
    assert(b@ =~= b@.take(b@.len() as int));
    true
}

/// A non-empty text is at Levenshtein distance 0 from itself, and its Jaro-Winkler
/// similarity with itself is 1, whatever the case option.
pub proof fn lemma_self_similarity(s: Seq<char>, options: Option<bool>)
    requires
        s.len() > 0,
    ensures
        levenshtein(s, s) == 0,
        jaro_winkler_result(s, s, options) == Some((1int, 1int)),
{
    lemma_edit_distance_self(s);
}

/// Levenshtein similarity is symmetric and lies between 0 and 1.
pub proof fn lemma_levenshtein_similarity_symmetric(a: Seq<char>, b: Seq<char>)
    ensures
        levenshtein_ratio(a, b) == levenshtein_ratio(b, a),
        0 <= levenshtein_ratio(a, b).0 <= levenshtein_ratio(a, b).1,
        0 < levenshtein_ratio(a, b).1,
{
    lemma_edit_distance_symmetric(a, b);
    lemma_edit_distance_bound(a, b);
}

} // verus!
