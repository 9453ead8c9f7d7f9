//! Span windowing, candidate scoring and the extraction of list entities.
use vstd::prelude::*;
use vstd::string::StrSliceExecFns;
use crate::collections::{intersection, union, uniq};
use crate::strings::{
    chars_of, jaro_winkler_result, jaro_winkler_similarity, levenshtein_ratio, levenshtein_similarity,
    Ratio, MAX_TEXT_LEN,
};
use crate::tokens::{chars_before, lemma_chars_before_mono, texts, total_len, Token};

verus! {

/// The texts one after another.
pub open spec fn joined_upto(ts: Seq<Seq<char>>, n: int) -> Seq<char>
    decreases n,
{
    if n <= 0 {
        Seq::empty()
    } else {
        joined_upto(ts, n - 1) + ts[n - 1]
    }
}

pub open spec fn joined(ts: Seq<Seq<char>>) -> Seq<char> {
    joined_upto(ts, ts.len() as int)
}

pub proof fn lemma_joined_len(ts: Seq<Seq<char>>, n: int)
    requires
        0 <= n <= ts.len(),
    ensures
        joined_upto(ts, n).len() == chars_before(ts, n),
    decreases n,
{
    if n > 0 {
        lemma_joined_len(ts, n - 1);
    }
}

/// The strings concatenated.
pub fn join(v: &[String]) -> (r: String)
    ensures
        r@ == joined(texts(v@)),
{
    let ghost ts = texts(v@);
    let mut res = String::new();
    let mut i: usize = 0;
    while i < v.len()
        invariant
            ts == texts(v@),
            0 <= i <= v@.len(),
            res@ == joined_upto(ts, i as int),
        decreases v@.len() - i,
    {
        res.append(v[i].as_str());
        i = i + 1;
    }
    res
}

/// The ASCII lower-case form of a character; others stay as they are.
pub open spec fn ascii_lower(c: char) -> char {
    if 'A' <= c && c <= 'Z' {
        (((c as u32) + 32) as u8) as char
    } else {
        c
    }
}

fn lower_ascii_char(c: char) -> (r: char)
    ensures
        r == ascii_lower(c),
{
    if 'A' <= c && c <= 'Z' {
        (((c as u32) + 32) as u8) as char
    } else {
        c
    }
}

pub open spec fn dist(x: int, y: int) -> int {
    if x >= y {
        x - y
    } else {
        y - x
    }
}

/// How many tokens from `i` on join the window, with `total` characters taken so far
/// (`first` when none is taken yet): a token joins while fewer than `d` characters are
/// taken and, unless it is the window's first token, adding it does not move the total
/// further from `d`.
pub open spec fn take_count(ts: Seq<Seq<char>>, i: int, first: bool, total: int, d: int) -> int
    decreases ts.len() - i,
{
    if i < 0 || i >= ts.len() {
        0
    } else if (!first && dist(d, total) < dist(d, total + ts[i].len())) || total >= d {
        0
    } else {
        1 + take_count(ts, i + 1, false, total + ts[i].len(), d)
    }
}

/// The first `k` tokens from `start`, less the tokens marked as made only of spaces at
/// their end.
pub open spec fn trimmed(ts: Seq<Token>, start: int, k: int) -> int
    decreases k,
{
    if k > 0 && ts[start + k - 1].is_space {
        trimmed(ts, start, k - 1)
    } else {
        k
    }
}

/// Number of tokens in the window at `start` aimed at `d` characters: the tokens taken,
/// less those marked as made only of spaces at its end.
pub open spec fn window_len(ts: Seq<Token>, start: int, d: int) -> int {
    trimmed(ts, start, take_count(token_texts(ts), start, true, 0, d))
}

pub open spec fn token_texts(ts: Seq<Token>) -> Seq<Seq<char>> {
    ts.map_values(|t: Token| t.value@)
}

pub proof fn lemma_take_count_bound(ts: Seq<Seq<char>>, i: int, first: bool, total: int, d: int)
    requires
        0 <= i,
    ensures
        0 <= take_count(ts, i, first, total, d),
        i < ts.len() ==> take_count(ts, i, first, total, d) <= ts.len() - i,
    decreases ts.len() - i,
{
    if 0 <= i < ts.len() {
        lemma_take_count_bound(ts, i + 1, false, total + ts[i].len(), d);
    }
}

proof fn lemma_trimmed_bound(ts: Seq<Token>, start: int, k: int)
    requires
        0 <= k,
    ensures
        0 <= trimmed(ts, start, k) <= k,
    decreases k,
{
    if k > 0 && ts[start + k - 1].is_space {
        lemma_trimmed_bound(ts, start, k - 1);
    }
}

/// The window of tokens from `start` whose length best approaches `desired_length`
/// characters, never ending on a token made only of spaces.
pub fn take_until(arr: &[Token], start: usize, desired_length: usize) -> (r: Vec<Token>)
    requires
        start <= arr@.len(),
        total_len(token_texts(arr@)) < usize::MAX,
    ensures
        r@.len() == window_len(arr@, start as int, desired_length as int),
        forall|k: int| 0 <= k < r@.len() ==> r@[k] == arr@[start + k],
{
    let ghost ts = token_texts(arr@);
    let mut total: usize = 0;
    let mut result: Vec<Token> = Vec::new();
    let mut i: usize = start;
    proof {
        lemma_take_count_bound(ts, start as int, true, 0, desired_length as int);
    }
    while i < arr.len()
        invariant_except_break
            take_count(ts, start as int, true, 0, desired_length as int) == (i - start) + take_count(
                ts,
                i as int,
                i == start,
                total as int,
                desired_length as int,
            ),
        invariant
            ts == token_texts(arr@),
            total_len(ts) < usize::MAX,
            start <= i <= arr@.len(),
            result@.len() == i - start,
            total == chars_before(ts, i as int) - chars_before(ts, start as int),
            forall|k: int| 0 <= k < result@.len() ==> result@[k] == arr@[start + k],
        ensures
            take_count(ts, start as int, true, 0, desired_length as int) == result@.len(),
        decreases arr@.len() - i,
    {
        let to_add = arr[i].value.as_str().unicode_len();
        let current = total;
        proof {
            lemma_chars_before_mono(ts, i + 1, ts.len() as int);
            lemma_chars_before_mono(ts, start as int, i as int);
            lemma_chars_before_mono(ts, 0, start as int);
            assert(chars_before(ts, i + 1) == chars_before(ts, i as int) + ts[i as int].len());
            assert(ts[i as int] == arr@[i as int].value@);
        }
        let before = if desired_length >= current { desired_length - current } else { current - desired_length };
        let next = current + to_add;
        let after = if desired_length >= next { desired_length - next } else { next - desired_length };
        if (i > start && before < after) || current >= desired_length {
            break;
        }
        total = next;
        result.push(arr[i].copy());
        i = i + 1;
    }
    proof {
        if i == arr.len() {
            assert(take_count(ts, i as int, i == start, total as int, desired_length as int) == 0);
        }
    }
    let ghost taken = result@.len() as int;
    let mut k = result.len();
    let len = arr.len();
    while k > 0 && arr[start + k - 1].is_space
        invariant
            len == arr@.len(),
            start + k <= arr@.len(),
            k <= taken,
            result@.len() == k,
            trimmed(arr@, start as int, taken) == trimmed(arr@, start as int, k as int),
            forall|q: int| 0 <= q < result@.len() ==> result@[q] == arr@[start + q],
        decreases k,
    {
        result.pop();
        k = k - 1;
    }
    result
}

/// Number of positions below `n` where `x` and `y` agree.
pub open spec fn agree(x: Seq<char>, y: Seq<char>, n: int) -> int
    decreases n,
{
    if n <= 0 {
        0
    } else {
        agree(x, y, n - 1) + if x[n - 1] == y[n - 1] {
            1int
        } else {
            0int
        }
    }
}

/// Agreement of the joined texts position by position, over the longer length (at least 1).
pub open spec fn exact_ratio(a: Seq<Seq<char>>, b: Seq<Seq<char>>) -> (int, int) {
    let x = joined(a);
    let y = joined(b);
    let mn = if x.len() <= y.len() { x.len() as int } else { y.len() as int };
    let mx = if x.len() >= y.len() { x.len() as int } else { y.len() as int };
    (agree(x, y, mn), if mx == 0 { 1 } else { mx })
}

proof fn lemma_agree(x: Seq<char>, y: Seq<char>, n: int)
    requires
        0 <= n <= x.len(),
        n <= y.len(),
    ensures
        0 <= agree(x, y, n) <= n,
        agree(x, y, n) == n <==> x.take(n) == y.take(n),
    decreases n,
{
    if n == 0 {
        assert(x.take(0) =~= y.take(0));
    } else {
        lemma_agree(x, y, n - 1);
        assert(x.take(n).drop_last() =~= x.take(n - 1));
        assert(y.take(n).drop_last() =~= y.take(n - 1));
        if x.take(n) == y.take(n) {
            assert(x.take(n)[n - 1] == y.take(n)[n - 1]);
            assert(x.take(n - 1) == y.take(n - 1));
        }
        if agree(x, y, n) == n {
            assert(x.take(n) =~= y.take(n)) by {
                assert(x.take(n - 1) == y.take(n - 1));
                assert forall|k: int| 0 <= k < n implies x.take(n)[k] == y.take(n)[k] by {
                    if k < n - 1 {
                        assert(x.take(n - 1)[k] == y.take(n - 1)[k]);
                    }
                }
            }
        }
    }
}

/// Exact agreement score of two token lists; it is `1` exactly when the joined texts are
/// equal and not empty.
pub fn compute_exact_score(a: &[String], b: &[String]) -> (r: Ratio)
    ensures
        r.pair() == exact_ratio(texts(a@), texts(b@)),
        (r.num == r.den) == (joined(texts(a@)) == joined(texts(b@)) && joined(texts(a@)).len() > 0),
{
    let s1 = join(a);
    let s2 = join(b);
    let x = chars_of(s1.as_str());
    let y = chars_of(s2.as_str());
    let min = if x.len() <= y.len() { x.len() } else { y.len() };
    let max = if x.len() >= y.len() { x.len() } else { y.len() };
    let mut score: usize = 0;
    let mut i: usize = 0;
    while i < min
        invariant
            0 <= i <= min,
            min <= x@.len(),
            min <= y@.len(),
            score == agree(x@, y@, i as int),
            score <= i,
        decreases min - i,
    {
        if x[i] == y[i] {
            score = score + 1;
        }
        i = i + 1;
    }
    proof {
        lemma_agree(x@, y@, min as int);
        if x@ == y@ {
            assert(x@.take(min as int) == y@.take(min as int));
        }
        if score == max && max > 0 {
            assert(x@ =~= x@.take(min as int));
            assert(y@ =~= y@.take(min as int));
        }
    }
    let den: usize = if max == 0 { 1 } else { max };
    Ratio { num: score as u64, den: den as u64 }
}

/// Jaccard ratio of the character sets of `x` and `y`; `1` when both are empty.
pub open spec fn jaccard(x: Seq<char>, y: Seq<char>) -> (int, int) {
    let u = x.to_set().union(y.to_set()).len() as int;
    if u == 0 {
        (1, 1)
    } else {
        (x.to_set().intersect(y.to_set()).len() as int, u)
    }
}

/// Number of texts among the first `n` that are longer than one character.
pub open spec fn count_long(ts: Seq<Seq<char>>, n: int) -> int
    decreases n,
{
    if n <= 0 {
        0
    } else {
        count_long(ts, n - 1) + if ts[n - 1].len() > 1 {
            1int
        } else {
            0int
        }
    }
}

/// The smaller over the larger of two sizes; `1` when both are zero.
pub open spec fn size_ratio(p: int, q: int) -> (int, int) {
    if p <= 0 && q <= 0 {
        (1, 1)
    } else if p <= q {
        (p, q)
    } else {
        (q, p)
    }
}

pub open spec fn lowered(x: Seq<char>) -> Seq<char> {
    x.map_values(|c: char| ascii_lower(c))
}

/// The square of the structural score: the mean of the case-sensitive and the ASCII
/// lower-cased character-set Jaccard ratios, times the ratio of the counts of tokens
/// longer than one character (each at least 1), times the ratio of the total lengths.
pub open spec fn structural(a: Seq<Seq<char>>, b: Seq<Seq<char>>) -> (int, int) {
    let x = joined(a);
    let y = joined(b);
    let c1 = jaccard(x, y);
    let c2 = jaccard(lowered(x), lowered(y));
    let la = if count_long(a, a.len() as int) > 1 { count_long(a, a.len() as int) } else { 1 };
    let lb = if count_long(b, b.len() as int) > 1 { count_long(b, b.len() as int) } else { 1 };
    let q = size_ratio(la, lb);
    let z = size_ratio(x.len() as int, y.len() as int);
    ((c1.0 * c2.1 + c2.0 * c1.1) * q.0 * z.0, (2 * c1.1 * c2.1) * q.1 * z.1)
}

/// Largest denominator of a structural score over texts of at most `MAX_TEXT_LEN` characters.
pub const STRUCTURAL_DEN_MAX: u64 = 576460752303423488;

proof fn lemma_filter_set(s: Seq<char>, other: Seq<char>)
    requires
        s.no_duplicates(),
    ensures
        s.filter(|c: char| other.contains(c)).no_duplicates(),
        s.filter(|c: char| other.contains(c)).to_set() == s.to_set().intersect(other.to_set()),
    decreases s.len(),
{
    let f = s.filter(|c: char| other.contains(c));
    if s.len() == 0 {
        assert(f =~= Seq::<char>::empty()) by {
            reveal_with_fuel(Seq::filter, 1);
        }
        assert(f.to_set() =~= s.to_set().intersect(other.to_set()));
    } else {
        let p = s.drop_last();
        assert(p.no_duplicates()) by {
            assert forall|i: int, j: int| 0 <= i < p.len() && 0 <= j < p.len() && i != j implies p[i] != p[j] by {
                assert(p[i] == s[i] && p[j] == s[j]);
            }
        }
        lemma_filter_set(p, other);
        let fp = p.filter(|c: char| other.contains(c));
        reveal_with_fuel(Seq::filter, 1);
        assert(s.drop_last() == p);
        let x = s.last();
        assert(!p.contains(x)) by {
            if p.contains(x) {
                let k = choose|k: int| 0 <= k < p.len() && p[k] == x;
                assert(s[k] == s[s.len() - 1]);
            }
        }
        assert(!fp.contains(x)) by {
            if fp.contains(x) {
                assert(fp.to_set().contains(x));
            }
        }
        if other.contains(x) {
            assert(f == fp.push(x));
            assert(f.no_duplicates()) by {
                assert forall|i: int, j: int| 0 <= i < f.len() && 0 <= j < f.len() && i != j implies f[i] != f[j] by {
                    if i < fp.len() && j < fp.len() {
                        assert(f[i] == fp[i] && f[j] == fp[j]);
                    } else if i < fp.len() {
                        assert(f[i] == fp[i]);
                        assert(fp.contains(f[i]));
                    } else if j < fp.len() {
                        assert(f[j] == fp[j]);
                        assert(fp.contains(f[j]));
                    }
                }
            }
            fp.lemma_push_to_set_commute(x);
            p.lemma_push_to_set_commute(x);
            assert(s == p.push(x));
            assert(f.to_set() =~= s.to_set().intersect(other.to_set()));
        } else {
            assert(f == fp);
            p.lemma_push_to_set_commute(x);
            assert(s == p.push(x));
            assert(other.to_set().contains(x) == other.contains(x));
            assert(f.to_set() =~= s.to_set().intersect(other.to_set()));
        }
    }
}

/// Jaccard ratio of the character sets of two texts.
fn jaccard_chars(x: &Vec<char>, y: &Vec<char>) -> (r: Ratio)
    requires
        x@.len() <= MAX_TEXT_LEN,
        y@.len() <= MAX_TEXT_LEN,
    ensures
        r.pair() == jaccard(x@, y@),
        r.num <= r.den,
        0 < r.den <= 2 * MAX_TEXT_LEN,
{
    let ux = uniq(x.as_slice());
    let uy = uniq(y.as_slice());
    let both = intersection(ux.as_slice(), uy.as_slice());
    let all = union(ux.as_slice(), uy.as_slice());
    proof {
        lemma_filter_set(ux@, uy@);
        both@.unique_seq_to_set();
        all@.unique_seq_to_set();
        ux@.unique_seq_to_set();
        uy@.unique_seq_to_set();
        x@.lemma_cardinality_of_set();
        y@.lemma_cardinality_of_set();
        vstd::set_lib::lemma_len_union(x@.to_set(), y@.to_set());
        vstd::set_lib::lemma_len_subset(x@.to_set().intersect(y@.to_set()), x@.to_set().union(y@.to_set()));
    }
    if all.len() == 0 {
        return Ratio { num: 1, den: 1 };
    }
    Ratio { num: both.len() as u64, den: all.len() as u64 }
}

proof fn lemma_count_long(ts: Seq<Seq<char>>, n: int)
    requires
        0 <= n <= ts.len(),
    ensures
        0 <= count_long(ts, n) <= chars_before(ts, n),
    decreases n,
{
    if n > 0 {
        lemma_count_long(ts, n - 1);
    }
}

/// Number of strings longer than one character.
fn long_tokens(v: &[String]) -> (r: usize)
    ensures
        r == count_long(texts(v@), v@.len() as int),
{
    let ghost ts = texts(v@);
    let mut n: usize = 0;
    let mut i: usize = 0;
    while i < v.len()
        invariant
            ts == texts(v@),
            0 <= i <= v@.len(),
            n == count_long(ts, i as int),
            n <= i,
        decreases v@.len() - i,
    {
        if v[i].as_str().unicode_len() > 1 {
            n = n + 1;
        }
        i = i + 1;
    }
    n
}

fn lower_ascii_chars(x: &Vec<char>) -> (r: Vec<char>)
    ensures
        r@ == lowered(x@),
{
    let mut res: Vec<char> = Vec::new();
    let mut i: usize = 0;
    while i < x.len()
        invariant
            0 <= i <= x@.len(),
            res@ == lowered(x@).take(i as int),
        decreases x@.len() - i,
    {
        res.push(lower_ascii_char(x[i]));
        i = i + 1;
        assert(res@ =~= lowered(x@).take(i as int));
    }
    assert(res@ =~= lowered(x@));
    res
}

/// The square of the structural score of two token lists (see `structural`).
pub fn compute_structural_score(a: &[String], b: &[String]) -> (r: Ratio)
    requires
        total_len(texts(a@)) <= MAX_TEXT_LEN,
        total_len(texts(b@)) <= MAX_TEXT_LEN,
    ensures
        r.pair() == structural(texts(a@), texts(b@)),
        r.num <= r.den,
        0 < r.den <= STRUCTURAL_DEN_MAX,
{
    let x = chars_of(join(a).as_str());
    let y = chars_of(join(b).as_str());
    proof {
        lemma_joined_len(texts(a@), a@.len() as int);
        lemma_joined_len(texts(b@), b@.len() as int);
        lemma_count_long(texts(a@), a@.len() as int);
        lemma_count_long(texts(b@), b@.len() as int);
    }
    let c1 = jaccard_chars(&x, &y);
    let c2 = jaccard_chars(&lower_ascii_chars(&x), &lower_ascii_chars(&y));
    let ca = long_tokens(a);
    let cb = long_tokens(b);
    let la: u64 = if ca > 1 { ca as u64 } else { 1 };
    let lb: u64 = if cb > 1 { cb as u64 } else { 1 };
    let (q0, q1) = if la <= lb { (la, lb) } else { (lb, la) };
    let sx = x.len() as u64;
    let sy = y.len() as u64;
    let (z0, z1): (u64, u64) = if sx == 0 && sy == 0 {
        (1, 1)
    } else if sx <= sy {
        (sx, sy)
    } else {
        (sy, sx)
    };
    proof {
        assert(c1.num * c2.den + c2.num * c1.den <= 2 * c1.den * c2.den) by (nonlinear_arith)
            requires c1.num <= c1.den, c2.num <= c2.den;
        assert(2 * c1.den * c2.den <= 2 * 32768 * 32768) by (nonlinear_arith)
            requires c1.den <= 32768, c2.den <= 32768;
        assert((2 * c1.den * c2.den) * q1 <= 2 * 32768 * 32768 * 16384) by (nonlinear_arith)
            requires 2 * c1.den * c2.den <= 2 * 32768 * 32768, q1 <= 16384;
        assert((2 * c1.den * c2.den) * q1 * z1 <= 2 * 32768 * 32768 * 16384 * 16384) by (nonlinear_arith)
            requires (2 * c1.den * c2.den) * q1 <= 2 * 32768 * 32768 * 16384, z1 <= 16384;
        assert((c1.num * c2.den + c2.num * c1.den) * q0 <= (2 * c1.den * c2.den) * q1) by (nonlinear_arith)
            requires c1.num * c2.den + c2.num * c1.den <= 2 * c1.den * c2.den, q0 <= q1;
        assert((c1.num * c2.den + c2.num * c1.den) * q0 * z0 <= (2 * c1.den * c2.den) * q1 * z1) by (nonlinear_arith)
            requires (c1.num * c2.den + c2.num * c1.den) * q0 <= (2 * c1.den * c2.den) * q1, z0 <= z1;
        assert(0 < (2 * c1.den * c2.den) * q1 * z1) by (nonlinear_arith)
            requires 0 < c1.den, 0 < c2.den, 0 < q1, 0 < z1;
    }
    let num = (c1.num * c2.den + c2.num * c1.den) * q0 * z0;
    let den = (2 * c1.den * c2.den) * q1 * z1;
    Ratio { num, den }
}

/// Largest denominator of a fuzzy score over texts of at most `MAX_TEXT_LEN` characters.
pub const FUZZY_DEN_MAX: u64 = 4323455642275676160;

/// Mean of the Levenshtein similarity and the case-insensitive Jaro-Winkler similarity
/// of the joined texts; `None` when a text (or its upper-cased form) is longer than
/// `MAX_TEXT_LEN` characters.
pub open spec fn fuzzy_result(a: Seq<Seq<char>>, b: Seq<Seq<char>>) -> Option<(int, int)> {
    let x = joined(a);
    let y = joined(b);
    if x.len() > MAX_TEXT_LEN || y.len() > MAX_TEXT_LEN {
        None
    } else {
        match jaro_winkler_result(x, y, Some(false)) {
            None => None,
            Some(j) => {
                let l = levenshtein_ratio(x, y);
                Some((l.0 * j.1 + j.0 * l.1, 2 * l.1 * j.1))
            },
        }
    }
}

/// The fuzzy score of two token lists (see `fuzzy_result`).
pub fn compute_fuzzy_score(a: &[String], b: &[String]) -> (r: Option<Ratio>)
    ensures
        crate::strings::opt_pair(r) == fuzzy_result(texts(a@), texts(b@)),
        r matches Some(x) ==> x.num <= x.den && 0 < x.den <= FUZZY_DEN_MAX,
{
    let str1 = join(a);
    let str2 = join(b);
    let n1 = str1.as_str().unicode_len();
    let n2 = str2.as_str().unicode_len();
    if n1 > MAX_TEXT_LEN || n2 > MAX_TEXT_LEN {
        return None;
    }
    let d2 = match jaro_winkler_similarity(str1.as_str(), str2.as_str(), Some(false)) {
        None => {
            return None;
        },
        Some(j) => j,
    };
    let d1 = levenshtein_similarity(str1.as_str(), str2.as_str());
    proof {
        assert(d1.den <= 16384);
        assert(d1.num * d2.den + d2.num * d1.den <= 2 * d1.den * d2.den) by (nonlinear_arith)
            requires d1.num <= d1.den, d2.num <= d2.den;
        assert(2 * d1.den * d2.den <= 2 * 16384 * (30 * 16384 * 16384 * 16384)) by (nonlinear_arith)
            requires d1.den <= 16384, d2.den <= 30 * 16384 * 16384 * 16384;
        assert(0 < 2 * d1.den * d2.den) by (nonlinear_arith)
            requires 0 < d1.den, 0 < d2.den;
        assert(d1.num * d2.den <= d1.den * d2.den && d2.num * d1.den <= d1.den * d2.den) by (nonlinear_arith)
            requires d1.num <= d1.den, d2.num <= d2.den;
        assert(d1.den * d2.den <= 16384 * (30 * 16384 * 16384 * 16384)) by (nonlinear_arith)
            requires d1.den <= 16384, d2.den <= 30 * 16384 * 16384 * 16384;
    }
    let prod = d1.den * d2.den;
    assert(2 * prod == 2 * d1.den * d2.den) by (nonlinear_arith)
        requires prod == d1.den * d2.den;
    Some(Ratio { num: d1.num * d2.den + d2.num * d1.den, den: 2 * prod })
}

proof fn lemma_jaccard(x: Seq<char>, y: Seq<char>)
    ensures
        jaccard(x, y) == jaccard(y, x),
        0 <= jaccard(x, y).0 <= jaccard(x, y).1,
        0 < jaccard(x, y).1,
        jaccard(x, x).0 == jaccard(x, x).1,
{
    vstd::seq_lib::seq_to_set_is_finite(x);
    vstd::seq_lib::seq_to_set_is_finite(y);
    assert(x.to_set().union(y.to_set()) =~= y.to_set().union(x.to_set()));
    assert(x.to_set().intersect(y.to_set()) =~= y.to_set().intersect(x.to_set()));
    assert(x.to_set().union(x.to_set()) =~= x.to_set());
    assert(x.to_set().intersect(x.to_set()) =~= x.to_set());
    vstd::set_lib::lemma_len_subset(x.to_set().intersect(y.to_set()), x.to_set().union(y.to_set()));
}

/// The structural score is symmetric in its two token lists and lies between 0 and 1,
/// and a token list scores 1 against itself.
pub proof fn lemma_structural_symmetric(a: Seq<Seq<char>>, b: Seq<Seq<char>>)
    ensures
        structural(a, b) == structural(b, a),
        0 <= structural(a, b).0 <= structural(a, b).1,
        0 < structural(a, b).1,
        structural(a, a).0 == structural(a, a).1,
{
    let x = joined(a);
    let y = joined(b);
    lemma_jaccard(x, y);
    lemma_jaccard(lowered(x), lowered(y));
    lemma_jaccard(y, x);
    lemma_jaccard(lowered(y), lowered(x));
    lemma_count_long(a, a.len() as int);
    lemma_count_long(b, b.len() as int);
    let c1 = jaccard(x, y);
    let c2 = jaccard(lowered(x), lowered(y));
    let la = if count_long(a, a.len() as int) > 1 { count_long(a, a.len() as int) } else { 1 };
    let lb = if count_long(b, b.len() as int) > 1 { count_long(b, b.len() as int) } else { 1 };
    let q = size_ratio(la, lb);
    let z = size_ratio(x.len() as int, y.len() as int);
    assert(c1.0 * c2.1 + c2.0 * c1.1 <= 2 * c1.1 * c2.1) by (nonlinear_arith)
        requires 0 <= c1.0 <= c1.1, 0 <= c2.0 <= c2.1;
    assert(0 <= c1.0 * c2.1 + c2.0 * c1.1) by (nonlinear_arith)
        requires 0 <= c1.0 <= c1.1, 0 <= c2.0 <= c2.1;
    assert(0 < 2 * c1.1 * c2.1) by (nonlinear_arith)
        requires 0 < c1.1, 0 < c2.1;
    let cn = c1.0 * c2.1 + c2.0 * c1.1;
    let cd = 2 * c1.1 * c2.1;
    assert(cn * q.0 * z.0 <= cd * q.1 * z.1) by (nonlinear_arith)
        requires 0 <= cn <= cd, 0 <= q.0 <= q.1, 0 <= z.0 <= z.1;
    assert(0 <= cn * q.0 * z.0) by (nonlinear_arith)
        requires 0 <= cn, 0 <= q.0, 0 <= z.0;
    assert(0 < cd * q.1 * z.1) by (nonlinear_arith)
        requires 0 < cd, 0 < q.1, 0 < z.1;
    let d1 = jaccard(x, x);
    let d2 = jaccard(lowered(x), lowered(x));
    lemma_jaccard(x, x);
    lemma_jaccard(lowered(x), lowered(x));
    let qa = size_ratio(la, la);
    let za = size_ratio(x.len() as int, x.len() as int);
    assert((d1.0 * d2.1 + d2.0 * d1.1) * qa.0 * za.0 == (2 * d1.1 * d2.1) * qa.1 * za.1) by (nonlinear_arith)
        requires d1.0 == d1.1, d2.0 == d2.1, qa.0 == qa.1, za.0 == za.1;
}

} // verus!
