//! Candidate search over a list-entity model, overlap elimination and projection of the
//! accepted candidates to extractions.
use vstd::prelude::*;
use vstd::string::StrSliceExecFns;
use crate::parser::{
    compute_exact_score, compute_fuzzy_score, compute_structural_score, fuzzy_result, join,
    joined, lemma_joined_len, lemma_take_count_bound, structural, take_count, take_until, token_texts, trimmed, window_len,
};
use crate::strings::{Ratio, MAX_TEXT_LEN};
use crate::tokens::{
    chars_before, lemma_chars_before_mono, space_spec, texts, to_tokens, token_spec, total_len, Token,
};

verus! {

/// What `str::to_lowercase` returns for a text.
pub uninterp spec fn lower_of(s: Seq<char>) -> Seq<char>;

/// Relies on `str::to_lowercase`: the lower-cased text, a function of the text alone.
#[verifier::external_body]
fn to_lower(s: &str) -> (r: String)
    ensures
        r@ == lower_of(s@),
{
    s.to_lowercase()
}

/// A recognizer: canonical values, each with its occurrences (synonyms given as token
/// lists), and the fuzzy threshold; a threshold of at least 1 allows exact matches only.
pub struct ListEntityModel {
    pub name: String,
    pub fuzzy: Ratio,
    pub tokens: Vec<(String, Vec<Vec<String>>)>,
}

/// The square of a confidence, as the ratio `num / den`.
#[derive(Clone, Copy, Debug, PartialEq, Eq, Structural)]
pub struct Confidence {
    pub num: u128,
    pub den: u128,
}

impl Confidence {
    pub open spec fn pair(self) -> (int, int) {
        (self.num as int, self.den as int)
    }
}

/// One recognized entity: `value` is the canonical value, `source` the matched text, and
/// `char_start..char_end` its place in the utterance.
#[derive(Debug)]
pub struct ListEntityExtraction {
    pub name: String,
    pub confidence: Confidence,
    pub value: String,
    pub source: String,
    pub char_start: usize,
    pub char_end: usize,
}

/// Why a model cannot be applied to an utterance.
#[derive(Clone, Copy, Debug, PartialEq, Eq, Structural)]
pub enum ExtractError {
    /// Two groups of the model share a canonical value.
    DuplicateCanonical,
    /// An occurrence has no characters.
    EmptyOccurrence,
    /// A window or an occurrence to be scored, or a case-folded form of one, is longer
    /// than `MAX_TEXT_LEN` characters, or a fuzzy match's ratios are too large for an
    /// exact squared confidence, or the utterance holds more than `COUNT_LIMIT` characters.
    TextTooLong,
}

/// The most characters that the utterance or an occurrence may hold: below it, every
/// character count fits in a `usize`.
pub const COUNT_LIMIT: usize = usize::MAX - 1;

/// Largest denominator of a squared confidence.
pub const CONFIDENCE_DEN_MAX: u128 = 10633823966279326983230456482242756608;

/// Largest denominator of an accepted fuzzy score that goes into a squared confidence.
pub const FACTOR_DEN_CAP: u64 = 4398046511104;

/// Largest denominator of a structural score that goes into a squared fuzzy confidence.
pub const STRUCTURAL_DEN_CAP: u64 = 549755813888;

pub open spec fn lower_texts(ts: Seq<Seq<char>>) -> Seq<Seq<char>> {
    ts.map_values(|t: Seq<char>| lower_of(t))
}

/// Squared score of a window against an occurrence under the threshold `th`. With fuzzy
/// matching on (threshold below 1 and a lower-cased window of at least 4 characters) it
/// is the fuzzy score, or 0 below the threshold, times the structural score, all squared;
/// otherwise the structural score squared when the texts are equal, else 0. `None` when
/// a text is longer than `MAX_TEXT_LEN` characters, when the fuzzy score cannot be had
/// (see `fuzzy_result`), or when an accepted fuzzy score or the structural score has a
/// denominator too large for the squared confidence to be exact in 128 bits.
pub open spec fn candidate_score(win: Seq<Seq<char>>, occ: Seq<Seq<char>>, th: (int, int)) -> Option<(int, int)> {
    let s = structural(win, occ);
    if total_len(win) > MAX_TEXT_LEN || total_len(occ) > MAX_TEXT_LEN {
        None
    } else if th.0 < th.1 && joined(lower_texts(win)).len() >= 4 {
        match fuzzy_result(lower_texts(win), lower_texts(occ)) {
            None => None,
            Some(f) => if f.0 * th.1 >= th.0 * f.1 {
                if f.1 > FACTOR_DEN_CAP || s.1 > STRUCTURAL_DEN_CAP {
                    None
                } else {
                    Some((f.0 * f.0 * s.0, f.1 * f.1 * s.1))
                }
            } else {
                Some((0, s.1))
            },
        }
    } else if joined(win) == joined(occ) && joined(win).len() > 0 {
        Some(s)
    } else {
        Some((0, s.1))
    }
}

pub open spec fn opt_conf(r: Option<Confidence>) -> Option<(int, int)> {
    match r {
        Some(c) => Some(c.pair()),
        None => None,
    }
}

/// The lower-cased form of each string.
fn lower_all(v: &[String]) -> (r: Vec<String>)
    ensures
        texts(r@) == lower_texts(texts(v@)),
{
    let mut res: Vec<String> = Vec::new();
    let mut i: usize = 0;
    while i < v.len()
        invariant
            0 <= i <= v@.len(),
            texts(res@) == lower_texts(texts(v@)).take(i as int),
        decreases v@.len() - i,
    {
        let l = to_lower(v[i].as_str());
        let ghost before = res@;
        res.push(l);
        proof {
            assert(texts(res@) =~= texts(before).push(l@));
            assert(lower_texts(texts(v@)).take(i + 1) =~= lower_texts(texts(v@)).take(i as int).push(
                lower_of(v@[i as int]@),
            ));
        }
        i = i + 1;
    }
    assert(lower_texts(texts(v@)).take(v@.len() as int) =~= lower_texts(texts(v@)));
    res
}

/// The squared score of a window against one occurrence (see `candidate_score`).
pub fn score_candidate(win: &[String], occurrence: &[String], fuzzy: Ratio) -> (r: Option<Confidence>)
    ensures
        opt_conf(r) == candidate_score(texts(win@), texts(occurrence@), fuzzy.pair()),
        r matches Some(c) ==> c.num <= c.den && 0 < c.den <= CONFIDENCE_DEN_MAX,
{
    let lw = join(win).as_str().unicode_len();
    let lo = join(occurrence).as_str().unicode_len();
    proof {
        lemma_joined_len(texts(win@), win@.len() as int);
        lemma_joined_len(texts(occurrence@), occurrence@.len() as int);
    }
    if lw > MAX_TEXT_LEN || lo > MAX_TEXT_LEN {
        return None;
    }
    let s = compute_structural_score(win, occurrence);
    let low_win = lower_all(win);
    let low_text = join(low_win.as_slice());
    if fuzzy.num < fuzzy.den && low_text.as_str().unicode_len() >= 4 {
        let low_occ = lower_all(occurrence);
        let f = match compute_fuzzy_score(low_win.as_slice(), low_occ.as_slice()) {
            None => {
                return None;
            },
            Some(f) => f,
        };
        let fnum = f.num as u128;
        let fden = f.den as u128;
        let snum = s.num as u128;
        let sden = s.den as u128;
        proof {
            assert(fnum * (fuzzy.den as u128) <= 4323455642275676160 * 0xffff_ffff_ffff_ffff) by (nonlinear_arith)
                requires fnum <= 4323455642275676160, fuzzy.den <= 0xffff_ffff_ffff_ffff;
            assert((fuzzy.num as u128) * fden <= 0xffff_ffff_ffff_ffff * 4323455642275676160) by (nonlinear_arith)
                requires fden <= 4323455642275676160, fuzzy.num <= 0xffff_ffff_ffff_ffff;
        }
        if fnum * (fuzzy.den as u128) >= (fuzzy.num as u128) * fden {
            if f.den > FACTOR_DEN_CAP || s.den > STRUCTURAL_DEN_CAP {
                return None;
            }
            proof {
                assert(fnum * fnum <= fden * fden) by (nonlinear_arith)
                    requires fnum <= fden;
                assert(fden * fden <= 4398046511104 * 4398046511104) by (nonlinear_arith)
                    requires fden <= 4398046511104;
                assert(fnum * fnum * snum <= fden * fden * sden) by (nonlinear_arith)
                    requires fnum * fnum <= fden * fden, snum <= sden;
                assert(fden * fden * sden <= 4398046511104 * 4398046511104 * 549755813888) by (nonlinear_arith)
                    requires fden * fden <= 4398046511104 * 4398046511104, sden <= 549755813888;
                assert(0 < fden * fden * sden) by (nonlinear_arith)
                    requires 0 < fden, 0 < sden;
            }
            Some(Confidence { num: fnum * fnum * snum, den: fden * fden * sden })
        } else {
            Some(Confidence { num: 0, den: sden })
        }
    } else {
        let e = compute_exact_score(win, occurrence);
        if e.num == e.den {
            Some(Confidence { num: s.num as u128, den: s.den as u128 })
        } else {
            Some(Confidence { num: 0, den: s.den as u128 })
        }
    }
}

/// Number of tokens in the window at `start` aimed at `d` characters (see `take_until`).
pub open spec fn window_width(ts: Seq<Seq<char>>, start: int, d: int) -> int {
    trimmed_texts(ts, start, take_count(ts, start, true, 0, d))
}

/// The first `k` texts from `start`, less those made only of spaces at their end.
pub open spec fn trimmed_texts(ts: Seq<Seq<char>>, start: int, k: int) -> int
    decreases k,
{
    if k > 0 && space_spec(ts[start + k - 1]) {
        trimmed_texts(ts, start, k - 1)
    } else {
        k
    }
}

proof fn lemma_trimmed_texts(toks: Seq<Token>, ts: Seq<Seq<char>>, start: int, k: int)
    requires
        0 <= start,
        0 <= k,
        start + k <= ts.len(),
        toks.len() == ts.len(),
        forall|j: int| 0 <= j < toks.len() ==> toks[j].is_space == space_spec(ts[j]),
    ensures
        trimmed(toks, start, k) == trimmed_texts(ts, start, k),
        !space_spec(ts[start]) && k > 0 ==> trimmed_texts(ts, start, k) >= 1,
        trimmed_texts(ts, start, k) <= k,
    decreases k,
{
    if k > 0 && space_spec(ts[start + k - 1]) {
        lemma_trimmed_texts(toks, ts, start, k - 1);
    }
}

/// The candidate of one occurrence at token `i`: its first and last token and its score.
pub open spec fn candidate_at(ts: Seq<Seq<char>>, occ: Seq<Seq<char>>, th: (int, int), i: int) -> (int, int, Option<(int, int)>) {
    let w = window_width(ts, i, total_len(occ));
    (i, i + w - 1, candidate_score(ts.subrange(i, i + w), occ, th))
}

/// The candidates of one occurrence at the first `n` tokens that are not only spaces.
pub open spec fn starts_upto(ts: Seq<Seq<char>>, occ: Seq<Seq<char>>, th: (int, int), n: int) -> Seq<(int, int, Option<(int, int)>)>
    decreases n,
{
    if n <= 0 {
        Seq::empty()
    } else if space_spec(ts[n - 1]) {
        starts_upto(ts, occ, th, n - 1)
    } else {
        starts_upto(ts, occ, th, n - 1).push(candidate_at(ts, occ, th, n - 1))
    }
}

/// The candidates of the first `n` occurrences of a canonical value, in generation order.
pub open spec fn occs_upto(ts: Seq<Seq<char>>, occs: Seq<Seq<Seq<char>>>, th: (int, int), n: int) -> Seq<(int, int, Option<(int, int)>)>
    decreases n,
{
    if n <= 0 {
        Seq::empty()
    } else {
        occs_upto(ts, occs, th, n - 1) + starts_upto(ts, occs[n - 1], th, ts.len() as int)
    }
}

pub open spec fn group_candidates(ts: Seq<Seq<char>>, occs: Seq<Seq<Seq<char>>>, th: (int, int)) -> Seq<(int, int, Option<(int, int)>)> {
    occs_upto(ts, occs, th, occs.len() as int)
}

/// The token lists of the occurrences.
pub open spec fn occ_views(v: Seq<Vec<String>>) -> Seq<Seq<Seq<char>>> {
    v.map_values(|o: Vec<String>| texts(o@))
}

/// A candidate internal to the search.
struct Candidate {
    start: usize,
    end: usize,
    score: Confidence,
    source: String,
}

spec fn cand_view(c: Candidate) -> (int, int, Option<(int, int)>) {
    (c.start as int, c.end as int, Some(c.score.pair()))
}

spec fn cands_view(v: Seq<Candidate>) -> Seq<(int, int, Option<(int, int)>)> {
    v.map_values(|c: Candidate| cand_view(c))
}

/// What holds of each candidate built over the utterance `ts`.
spec fn cand_ok(c: Candidate, ts: Seq<Seq<char>>) -> bool {
    &&& c.start <= c.end < ts.len()
    &&& c.source@ == joined(ts.subrange(c.start as int, c.end + 1))
    &&& c.score.num <= c.score.den <= CONFIDENCE_DEN_MAX
}

proof fn lemma_subrange_total(ts: Seq<Seq<char>>, i: int, j: int)
    requires
        0 <= i <= j <= ts.len(),
    ensures
        total_len(ts.subrange(i, j)) == chars_before(ts, j) - chars_before(ts, i),
    decreases j - i,
{
    let sub = ts.subrange(i, j);
    if i < j {
        lemma_subrange_total(ts, i, j - 1);
        let sub1 = ts.subrange(i, j - 1);
        assert(sub.len() == sub1.len() + 1);
        lemma_chars_before_prefix(sub, sub1, sub1.len() as int);
    }
}

proof fn lemma_chars_before_prefix(a: Seq<Seq<char>>, b: Seq<Seq<char>>, n: int)
    requires
        0 <= n <= a.len(),
        n <= b.len(),
        forall|k: int| 0 <= k < n ==> a[k] == b[k],
    ensures
        chars_before(a, n) == chars_before(b, n),
    decreases n,
{
    if n > 0 {
        lemma_chars_before_prefix(a, b, n - 1);
    }
}

proof fn lemma_window_width(toks: Seq<Token>, ts: Seq<Seq<char>>, i: int, d: int)
    requires
        0 <= i < ts.len(),
        d > 0,
        !space_spec(ts[i]),
        toks.len() == ts.len(),
        token_texts(toks) == ts,
        forall|j: int| 0 <= j < toks.len() ==> toks[j].is_space == space_spec(ts[j]),
    ensures
        1 <= window_width(ts, i, d) <= ts.len() - i,
        window_len(toks, i, d) == window_width(ts, i, d),
{
    assert(take_count(ts, i, true, 0, d) == 1 + take_count(ts, i + 1, false, ts[i].len() as int, d));
    lemma_take_count_bound(ts, i + 1, false, ts[i].len() as int, d);
    lemma_trimmed_texts(toks, ts, i, take_count(ts, i, true, 0, d));
}

/// The values of `tokens[start..start + n]`.
fn token_values(tokens: &Vec<Token>, start: usize, n: usize) -> (r: Vec<String>)
    requires
        start + n <= tokens@.len(),
    ensures
        texts(r@) == token_texts(tokens@).subrange(start as int, start + n),
{
    let total = tokens.len();
    let mut res: Vec<String> = Vec::new();
    let mut k: usize = 0;
    while k < n
        invariant
            start + n <= tokens@.len(),
            total == tokens@.len(),
            0 <= k <= n,
            texts(res@) == token_texts(tokens@).subrange(start as int, start + k),
        decreases n - k,
    {
        let v = tokens[start + k].value.clone();
        let ghost before = res@;
        res.push(v);
        proof {
            assert(texts(res@) =~= texts(before).push(v@));
        }
        k = k + 1;
        assert(texts(res@) =~= token_texts(tokens@).subrange(start as int, start + k));
    }
    res
}

/// The candidate of `occurrence` at token `i`; `None` when it cannot be scored.
fn make_candidate(tokens: &Vec<Token>, occurrence: &Vec<String>, fuzzy: Ratio, i: usize, desired: usize, ghost_ts: Ghost<Seq<Seq<char>>>) -> (r: Option<Candidate>)
    requires
        i < tokens@.len(),
        tokens@.len() == ghost_ts@.len(),
        token_texts(tokens@) == ghost_ts@,
        forall|j: int| 0 <= j < tokens@.len() ==> token_spec(#[trigger] tokens@[j], ghost_ts@, j),
        total_len(ghost_ts@) <= COUNT_LIMIT,
        desired == total_len(texts(occurrence@)),
        0 < desired <= COUNT_LIMIT,
        !space_spec(ghost_ts@[i as int]),
    ensures
        match r {
            Some(c) => cand_view(c) == candidate_at(ghost_ts@, texts(occurrence@), fuzzy.pair(), i as int)
                && cand_ok(c, ghost_ts@),
            None => candidate_at(ghost_ts@, texts(occurrence@), fuzzy.pair(), i as int).2 is None,
        },
{
    let ghost ts = ghost_ts@;
    proof {
        lemma_chars_before_mono(ts, 0, ts.len() as int);
    }
    let workset = take_until(tokens.as_slice(), i, desired);
    let w = workset.len();
    proof {
        assert forall|j: int| 0 <= j < tokens@.len() implies tokens@[j].is_space == space_spec(ts[j]) by {
            assert(token_spec(tokens@[j], ts, j));
        }
        lemma_window_width(tokens@, ts, i as int, desired as int);
        assert(w == window_width(ts, i as int, desired as int));
        lemma_subrange_total(ts, i as int, i + w);
        lemma_chars_before_mono(ts, i as int, i + w);
        lemma_chars_before_mono(ts, i + w, ts.len() as int);
        lemma_chars_before_mono(ts, 0, i as int);
    }
    let win = token_values(tokens, i, w);
    let score = match score_candidate(win.as_slice(), occurrence.as_slice(), fuzzy) {
        None => {
            return None;
        },
        Some(c) => c,
    };
    let source = join(win.as_slice());
    proof {
        assert(ts.subrange(i as int, i + w) =~= ts.subrange(i as int, (i + w - 1) + 1));
    }
    Some(Candidate { start: i, end: i + w - 1, score, source })
}

/// The candidates of one canonical value's occurrences over the tokens, in generation
/// order; `None` when one of them cannot be scored.
#[verifier::rlimit(50)]
fn search_group(tokens: &Vec<Token>, occurrences: &Vec<Vec<String>>, fuzzy: Ratio, ghost_ts: Ghost<Seq<Seq<char>>>) -> (r: Option<Vec<Candidate>>)
    requires
        tokens@.len() == ghost_ts@.len(),
        forall|i: int| 0 <= i < tokens@.len() ==> token_spec(#[trigger] tokens@[i], ghost_ts@, i),
        total_len(ghost_ts@) <= COUNT_LIMIT,
        forall|o: int| 0 <= o < occurrences@.len() ==> 0 < #[trigger] total_len(texts(occurrences@[o]@)) <= COUNT_LIMIT,
    ensures
        match r {
            Some(v) => cands_view(v@) == group_candidates(ghost_ts@, occ_views(occurrences@), fuzzy.pair())
                && forall|k: int| 0 <= k < v@.len() ==> cand_ok(#[trigger] v@[k], ghost_ts@),
            None => exists|k: int| 0 <= k < group_candidates(ghost_ts@, occ_views(occurrences@), fuzzy.pair()).len()
                && (#[trigger] group_candidates(ghost_ts@, occ_views(occurrences@), fuzzy.pair())[k]).2 is None,
        },
{
    let ghost ts = ghost_ts@;
    let ghost occs = occ_views(occurrences@);
    let ghost th = fuzzy.pair();
    proof {
        assert(token_texts(tokens@) =~= ts) by {
            assert forall|i: int| 0 <= i < ts.len() implies token_texts(tokens@)[i] == ts[i] by {
                assert(token_spec(tokens@[i], ts, i));
            }
        }
        lemma_chars_before_mono(ts, 0, ts.len() as int);
    }
    let mut cands: Vec<Candidate> = Vec::new();
    let mut o: usize = 0;
    while o < occurrences.len()
        invariant
            0 <= o <= occurrences@.len(),
            ts == ghost_ts@,
            occs == occ_views(occurrences@),
            occs.len() == occurrences@.len(),
            th == fuzzy.pair(),
            tokens@.len() == ts.len(),
            token_texts(tokens@) == ts,
            forall|i: int| 0 <= i < tokens@.len() ==> token_spec(#[trigger] tokens@[i], ts, i),
            total_len(ts) <= COUNT_LIMIT,
            forall|o: int| 0 <= o < occurrences@.len() ==> 0 < #[trigger] total_len(texts(occurrences@[o]@)) <= COUNT_LIMIT,
            cands_view(cands@) == occs_upto(ts, occs, th, o as int),
            forall|k: int| 0 <= k < cands@.len() ==> cand_ok(#[trigger] cands@[k], ts),
        decreases occurrences@.len() - o,
    {
        let occurrence = &occurrences[o];
        let ghost occ = texts(occurrence@);
        assert(occs[o as int] == occ);
        let otext = join(occurrence.as_slice());
        proof {
            lemma_joined_len(occ, occ.len() as int);
            assert(0 < total_len(texts(occurrences@[o as int]@)) <= COUNT_LIMIT);
        }
        let desired = otext.as_str().unicode_len();
        let ghost base = cands_view(cands@);
        let mut i: usize = 0;
        while i < tokens.len()
            invariant
                0 <= i <= tokens@.len(),
                o < occurrences@.len(),
                ts == ghost_ts@,
                occ == texts(occurrence@),
                occs[o as int] == occ,
                occs == occ_views(occurrences@),
                occs.len() == occurrences@.len(),
                th == fuzzy.pair(),
                desired == total_len(occ),
                0 < desired <= COUNT_LIMIT,
                tokens@.len() == ts.len(),
                token_texts(tokens@) == ts,
                forall|i: int| 0 <= i < tokens@.len() ==> token_spec(#[trigger] tokens@[i], ts, i),
                total_len(ts) <= COUNT_LIMIT,
                base == occs_upto(ts, occs, th, o as int),
                cands_view(cands@) == base + starts_upto(ts, occ, th, i as int),
                forall|k: int| 0 <= k < cands@.len() ==> cand_ok(#[trigger] cands@[k], ts),
            decreases tokens@.len() - i,
        {
            assert(token_spec(tokens@[i as int], ts, i as int));
            if tokens[i].is_space {
                i = i + 1;
                continue;
            }
            let made = make_candidate(tokens, occurrence, fuzzy, i, desired, Ghost(ts));
            let c = match made {
                None => {
                    proof {
                        lemma_unscored(ts, occs, th, o as int, i as int);
                        assert(ts == ghost_ts@ && occs == occ_views(occurrences@) && th == fuzzy.pair());
                        let k = choose|k: int| 0 <= k < group_candidates(ts, occs, th).len()
                            && (#[trigger] group_candidates(ts, occs, th)[k]).2 is None;
                        assert(group_candidates(ghost_ts@, occ_views(occurrences@), fuzzy.pair())[k].2 is None);
                    }
                    return None;
                },
                Some(c) => c,
            };
            let ghost before = cands@;
            cands.push(c);
            proof {
                assert(cands_view(cands@) =~= cands_view(before).push(cand_view(c)));
                assert forall|k: int| 0 <= k < cands@.len() implies cand_ok(#[trigger] cands@[k], ts) by {
                    if k < before.len() {
                        assert(cands@[k] == before[k]);
                    }
                }
            }
            i = i + 1;
        }
        proof {
            assert(occs_upto(ts, occs, th, o + 1) == base + starts_upto(ts, occ, th, ts.len() as int));
        }
        o = o + 1;
    }
    Some(cands)
}

proof fn lemma_unscored(ts: Seq<Seq<char>>, occs: Seq<Seq<Seq<char>>>, th: (int, int), o: int, i: int)
    requires
        0 <= o < occs.len(),
        0 <= i < ts.len(),
        !space_spec(ts[i]),
        candidate_at(ts, occs[o], th, i).2 is None,
    ensures
        exists|k: int| 0 <= k < group_candidates(ts, occs, th).len()
            && (#[trigger] group_candidates(ts, occs, th)[k]).2 is None,
{
    let occ = occs[o];
    let base = occs_upto(ts, occs, th, o);
    let k: int = (base.len() + starts_upto(ts, occ, th, i).len()) as int;
    assert(starts_upto(ts, occ, th, i + 1) == starts_upto(ts, occ, th, i).push(candidate_at(ts, occ, th, i)));
    lemma_occs_upto_prefix(ts, occs, th, o + 1, occs.len() as int);
    lemma_starts_upto_prefix(ts, occ, th, i + 1, ts.len() as int);
    assert(occs_upto(ts, occs, th, o + 1) == base + starts_upto(ts, occ, th, ts.len() as int));
    assert(occs_upto(ts, occs, th, o + 1)[k] == candidate_at(ts, occ, th, i));
    assert(group_candidates(ts, occs, th)[k] == candidate_at(ts, occ, th, i));
}

proof fn lemma_starts_upto_prefix(ts: Seq<Seq<char>>, occ: Seq<Seq<char>>, th: (int, int), n: int, m: int)
    requires
        0 <= n <= m,
    ensures
        starts_upto(ts, occ, th, n).len() <= starts_upto(ts, occ, th, m).len(),
        forall|k: int| 0 <= k < starts_upto(ts, occ, th, n).len() ==> starts_upto(ts, occ, th, m)[k] == starts_upto(ts, occ, th, n)[k],
    decreases m - n,
{
    if n < m {
        lemma_starts_upto_prefix(ts, occ, th, n, m - 1);
    }
}

proof fn lemma_occs_upto_prefix(ts: Seq<Seq<char>>, occs: Seq<Seq<Seq<char>>>, th: (int, int), n: int, m: int)
    requires
        0 <= n <= m,
    ensures
        occs_upto(ts, occs, th, n).len() <= occs_upto(ts, occs, th, m).len(),
        forall|k: int| 0 <= k < occs_upto(ts, occs, th, n).len() ==> occs_upto(ts, occs, th, m)[k] == occs_upto(ts, occs, th, n)[k],
    decreases m - n,
{
    if n < m {
        lemma_occs_upto_prefix(ts, occs, th, n, m - 1);
    }
}

/// Whether candidate `c` spans token `p`.
pub open spec fn covers(c: (int, int, Option<(int, int)>), p: int) -> bool {
    c.0 <= p <= c.1
}

/// Which candidates are eliminated once token positions `0..p` are processed: at each
/// position, every candidate still standing that spans it is eliminated when an earlier
/// candidate still standing spans it too.
pub open spec fn eliminated_after(cs: Seq<(int, int, Option<(int, int)>)>, p: int) -> Seq<bool>
    decreases p,
{
    if p <= 0 {
        Seq::new(cs.len(), |k: int| false)
    } else {
        let e = eliminated_after(cs, p - 1);
        Seq::new(
            cs.len(),
            |k: int|
                e[k] || (covers(cs[k], p - 1) && exists|j: int|
                    0 <= j < k && !e[j] && #[trigger] covers(cs[j], p - 1)),
        )
    }
}

/// Greedy overlap elimination over the token positions `0..n`.
fn eliminate(cands: &Vec<Candidate>, n: usize) -> (r: Vec<bool>)
    ensures
        r@ == eliminated_after(cands_view(cands@), n as int),
{
    let ghost cs = cands_view(cands@);
    let mut elim: Vec<bool> = Vec::new();
    let mut k: usize = 0;
    while k < cands.len()
        invariant
            0 <= k <= cands@.len(),
            elim@ == Seq::new(k as nat, |q: int| false),
        decreases cands@.len() - k,
    {
        elim.push(false);
        k = k + 1;
        assert(elim@ =~= Seq::new(k as nat, |q: int| false));
    }
    assert(elim@ =~= eliminated_after(cs, 0));
    let mut p: usize = 0;
    while p < n
        invariant
            0 <= p <= n,
            cs == cands_view(cands@),
            elim@ == eliminated_after(cs, p as int),
            elim@.len() == cands@.len(),
        decreases n - p,
    {
        let ghost e0 = elim@;
        let mut found: bool = false;
        let mut k: usize = 0;
        while k < cands.len()
            invariant
                0 <= k <= cands@.len(),
                cs == cands_view(cands@),
                e0 == eliminated_after(cs, p as int),
                e0.len() == cands@.len(),
                elim@.len() == cands@.len(),
                found == exists|j: int| 0 <= j < k && !e0[j] && #[trigger] covers(cs[j], p as int),
                forall|q: int| 0 <= q < k ==> #[trigger] elim@[q] == (e0[q] || (covers(cs[q], p as int) && exists|j: int|
                    0 <= j < q && !e0[j] && #[trigger] covers(cs[j], p as int))),
                forall|q: int| k <= q < cands@.len() ==> #[trigger] elim@[q] == e0[q],
            decreases cands@.len() - k,
        {
            let c = &cands[k];
            assert(cs[k as int] == cand_view(cands@[k as int]));
            assert(covers(cs[k as int], p as int) == (c.start <= p && p <= c.end));
            if !elim[k] && c.start <= p && p <= c.end {
                if found {
                    elim.set(k, true);
                } else {
                    found = true;
                }
            }
            k = k + 1;
        }
        p = p + 1;
        assert(elim@ =~= eliminated_after(cs, p as int));
    }
    elim
}

/// Whether a squared score reaches the acceptance threshold of 0.6 (0.36 once squared).
pub open spec fn accepted(s: Option<(int, int)>) -> bool {
    s matches Some(x) && 25 * x.0 >= 9 * x.1
}

/// An extraction as plain values: canonical value, squared confidence, matched text, and
/// its first and past-the-end character offsets.
pub type ExtractionView = (Seq<char>, (int, int), Seq<char>, int, int);

/// The extractions of the first `n` candidates of one canonical value that stand after
/// elimination and reach the threshold, in generation order.
pub open spec fn group_out(ts: Seq<Seq<char>>, canonical: Seq<char>, cs: Seq<(int, int, Option<(int, int)>)>, e: Seq<bool>, n: int) -> Seq<ExtractionView>
    decreases n,
{
    if n <= 0 {
        Seq::empty()
    } else if !e[n - 1] && accepted(cs[n - 1].2) {
        let c = cs[n - 1];
        group_out(ts, canonical, cs, e, n - 1).push(
            (canonical, c.2.unwrap(), joined(ts.subrange(c.0, c.1 + 1)), chars_before(ts, c.0), chars_before(ts, c.1 + 1)),
        )
    } else {
        group_out(ts, canonical, cs, e, n - 1)
    }
}

/// Lexicographic order on texts, character by character (by code point).
pub open spec fn key_less(a: Seq<char>, b: Seq<char>) -> bool
    decreases a.len(),
{
    if a.len() == 0 {
        b.len() > 0
    } else if b.len() == 0 {
        false
    } else if a[0] != b[0] {
        a[0] < b[0]
    } else {
        key_less(a.drop_first(), b.drop_first())
    }
}

proof fn lemma_key_less_total(a: Seq<char>, b: Seq<char>)
    ensures
        !(key_less(a, b) && key_less(b, a)),
        a != b ==> key_less(a, b) || key_less(b, a),
    decreases a.len(),
{
    if a.len() > 0 && b.len() > 0 && a[0] == b[0] {
        lemma_key_less_total(a.drop_first(), b.drop_first());
        if a != b {
            assert(a.drop_first() != b.drop_first()) by {
                if a.drop_first() == b.drop_first() {
                    assert(a =~= seq![a[0]] + a.drop_first());
                    assert(b =~= seq![b[0]] + b.drop_first());
                }
            }
        }
    }
    if a.len() == 0 && b.len() == 0 {
        assert(a =~= b);
    }
}

proof fn lemma_key_less_trans(a: Seq<char>, b: Seq<char>, c: Seq<char>)
    requires
        key_less(a, b),
        key_less(b, c),
    ensures
        key_less(a, c),
    decreases a.len(),
{
    if a.len() > 0 && a[0] == b[0] && b[0] == c[0] {
        lemma_key_less_trans(a.drop_first(), b.drop_first(), c.drop_first());
    }
}

/// Whether group `g` may come after the group `prev` (any group may come first).
pub open spec fn comes_after(groups: Seq<(Seq<char>, Seq<Seq<Seq<char>>>)>, prev: Option<int>, g: int) -> bool {
    0 <= g < groups.len() && match prev {
        Some(p) => key_less(groups[p].0, groups[g].0),
        None => true,
    }
}

/// Whether group `g` has the least key among those that may come after `prev`.
pub open spec fn least_after(groups: Seq<(Seq<char>, Seq<Seq<Seq<char>>>)>, prev: Option<int>, g: int) -> bool {
    comes_after(groups, prev, g) && forall|h: int| #[trigger] comes_after(groups, prev, h) ==> !key_less(groups[h].0, groups[g].0)
}

/// The group that follows `prev` in the order of canonical keys.
pub open spec fn next_after(groups: Seq<(Seq<char>, Seq<Seq<Seq<char>>>)>, prev: Option<int>) -> Option<int> {
    if exists|g: int| least_after(groups, prev, g) {
        Some(choose|g: int| least_after(groups, prev, g))
    } else {
        None
    }
}

/// The group processed at step `r`: groups go in increasing order of canonical key.
pub open spec fn order_at(groups: Seq<(Seq<char>, Seq<Seq<Seq<char>>>)>, r: int) -> Option<int>
    decreases r,
{
    if r <= 0 {
        next_after(groups, None)
    } else {
        match order_at(groups, r - 1) {
            Some(p) => next_after(groups, Some(p)),
            None => None,
        }
    }
}

/// The candidates of the group processed at step `r`.
pub open spec fn visit_candidates(ts: Seq<Seq<char>>, groups: Seq<(Seq<char>, Seq<Seq<Seq<char>>>)>, th: (int, int), r: int) -> Seq<(int, int, Option<(int, int)>)> {
    match order_at(groups, r) {
        Some(g) => group_candidates(ts, groups[g].1, th),
        None => Seq::empty(),
    }
}

/// The extractions of the first `n` steps, in order of canonical key.
pub open spec fn model_out(ts: Seq<Seq<char>>, groups: Seq<(Seq<char>, Seq<Seq<Seq<char>>>)>, th: (int, int), n: int) -> Seq<ExtractionView>
    decreases n,
{
    if n <= 0 {
        Seq::empty()
    } else {
        match order_at(groups, n - 1) {
            Some(g) => {
                let cs = group_candidates(ts, groups[g].1, th);
                model_out(ts, groups, th, n - 1) + group_out(ts, groups[g].0, cs, eliminated_after(cs, ts.len() as int), cs.len() as int)
            },
            None => model_out(ts, groups, th, n - 1),
        }
    }
}

pub open spec fn has_duplicate_key(groups: Seq<(Seq<char>, Seq<Seq<Seq<char>>>)>) -> bool {
    exists|g: int, h: int| 0 <= g < h < groups.len() && #[trigger] groups[g].0 == #[trigger] groups[h].0
}

/// The canonical values of a model with their occurrences, as plain values.
pub open spec fn groups_of(m: ListEntityModel) -> Seq<(Seq<char>, Seq<Seq<Seq<char>>>)> {
    m.tokens@.map_values(|g: (String, Vec<Vec<String>>)| (g.0@, occ_views(g.1@)))
}

pub open spec fn has_empty_occurrence(groups: Seq<(Seq<char>, Seq<Seq<Seq<char>>>)>) -> bool {
    exists|g: int, o: int| 0 <= g < groups.len() && 0 <= o < groups[g].1.len() && total_len(#[trigger] groups[g].1[o]) == 0
}

pub open spec fn has_long_occurrence(groups: Seq<(Seq<char>, Seq<Seq<Seq<char>>>)>) -> bool {
    exists|g: int, o: int| 0 <= g < groups.len() && 0 <= o < groups[g].1.len() && total_len(#[trigger] groups[g].1[o]) > COUNT_LIMIT
}

pub open spec fn has_unscored(ts: Seq<Seq<char>>, groups: Seq<(Seq<char>, Seq<Seq<Seq<char>>>)>, th: (int, int)) -> bool {
    exists|r: int, k: int| 0 <= r < groups.len() && 0 <= k < visit_candidates(ts, groups, th, r).len()
        && (#[trigger] visit_candidates(ts, groups, th, r)[k]).2 is None
}

/// The extractions of a model over an utterance, or why there are none.
pub open spec fn extraction(ts: Seq<Seq<char>>, groups: Seq<(Seq<char>, Seq<Seq<Seq<char>>>)>, th: (int, int)) -> Result<Seq<ExtractionView>, ExtractError> {
    if has_duplicate_key(groups) {
        Err(ExtractError::DuplicateCanonical)
    } else if has_empty_occurrence(groups) {
        Err(ExtractError::EmptyOccurrence)
    } else if (groups.len() > 0 && total_len(ts) > COUNT_LIMIT) || has_long_occurrence(groups) || has_unscored(ts, groups, th) {
        Err(ExtractError::TextTooLong)
    } else {
        Ok(model_out(ts, groups, th, groups.len() as int))
    }
}

pub open spec fn extraction_view(x: ListEntityExtraction) -> ExtractionView {
    (x.value@, x.confidence.pair(), x.source@, x.char_start as int, x.char_end as int)
}

/// Whether `r` is what `extraction` gives, each record named `name`.
pub open spec fn extraction_matches(r: Result<Vec<ListEntityExtraction>, ExtractError>, name: Seq<char>, spec_r: Result<Seq<ExtractionView>, ExtractError>) -> bool {
    match (r, spec_r) {
        (Ok(v), Ok(s)) => v@.len() == s.len() && forall|k: int| 0 <= k < v@.len()
            ==> (#[trigger] v@[k]).name@ == name && extraction_view(v@[k]) == s[k],
        (Err(e1), Err(e2)) => e1 == e2,
        _ => false,
    }
}

/// Number of characters in the strings, or `COUNT_LIMIT + 1` when there are more.
fn capped_len(v: &[String]) -> (r: usize)
    ensures
        r == if total_len(texts(v@)) <= COUNT_LIMIT { total_len(texts(v@)) } else { COUNT_LIMIT + 1 },
{
    let ghost ts = texts(v@);
    let mut total: usize = 0;
    let mut i: usize = 0;
    while i < v.len()
        invariant
            ts == texts(v@),
            0 <= i <= v@.len(),
            total == chars_before(ts, i as int),
            total <= COUNT_LIMIT,
        decreases v@.len() - i,
    {
        let n = v[i].as_str().unicode_len();
        if n > COUNT_LIMIT - total {
            proof {
                lemma_chars_before_mono(ts, i + 1, ts.len() as int);
            }
            return COUNT_LIMIT + 1;
        }
        total = total + n;
        i = i + 1;
    }
    total
}

pub open spec fn out_views(v: Seq<ListEntityExtraction>) -> Seq<ExtractionView> {
    v.map_values(|x: ListEntityExtraction| extraction_view(x))
}

/// Every record is named `name` and reaches the acceptance threshold.
pub open spec fn records_ok(v: Seq<ListEntityExtraction>, name: Seq<char>) -> bool {
    forall|k: int| 0 <= k < v.len() ==> (#[trigger] v[k]).name@ == name
        && 25 * v[k].confidence.num >= 9 * v[k].confidence.den
        && v[k].confidence.num <= v[k].confidence.den
}

/// Appends the extractions of one canonical value's candidates that stand after
/// elimination and reach the threshold.
fn project_group(
    tokens: &Vec<Token>,
    cands: &Vec<Candidate>,
    elim: &Vec<bool>,
    canonical: &String,
    name: &String,
    out: &mut Vec<ListEntityExtraction>,
    ghost_ts: Ghost<Seq<Seq<char>>>,
)
    requires
        tokens@.len() == ghost_ts@.len(),
        forall|j: int| 0 <= j < tokens@.len() ==> token_spec(#[trigger] tokens@[j], ghost_ts@, j),
        elim@.len() == cands@.len(),
        forall|k: int| 0 <= k < cands@.len() ==> cand_ok(#[trigger] cands@[k], ghost_ts@),
        records_ok(old(out)@, name@),
    ensures
        out_views(final(out)@) == out_views(old(out)@) + group_out(ghost_ts@, canonical@, cands_view(cands@), elim@, cands@.len() as int),
        records_ok(final(out)@, name@),
{
    let ghost ts = ghost_ts@;
    let ghost cs = cands_view(cands@);
    let ghost start_out = out_views(out@);
    let mut k: usize = 0;
    while k < cands.len()
        invariant
            0 <= k <= cands@.len(),
            ts == ghost_ts@,
            cs == cands_view(cands@),
            tokens@.len() == ts.len(),
            forall|j: int| 0 <= j < tokens@.len() ==> token_spec(#[trigger] tokens@[j], ts, j),
            elim@.len() == cands@.len(),
            forall|q: int| 0 <= q < cands@.len() ==> cand_ok(#[trigger] cands@[q], ts),
            out_views(out@) == start_out + group_out(ts, canonical@, cs, elim@, k as int),
            records_ok(out@, name@),
        decreases cands@.len() - k,
    {
        let c = &cands[k];
        assert(cand_ok(cands@[k as int], ts));
        assert(cs[k as int] == cand_view(cands@[k as int]));
        if !elim[k] && 25 * c.score.num >= 9 * c.score.den {
            assert(token_spec(tokens@[c.start as int], ts, c.start as int));
            assert(token_spec(tokens@[c.end as int], ts, c.end as int));
            let x = ListEntityExtraction {
                name: name.clone(),
                confidence: c.score,
                value: canonical.clone(),
                source: c.source.clone(),
                char_start: tokens[c.start].start_char,
                char_end: tokens[c.end].end_char,
            };
            let ghost before = out@;
            out.push(x);
            proof {
                assert(out_views(out@) =~= out_views(before).push(extraction_view(x)));
                assert(records_ok(out@, name@)) by {
                    assert forall|q: int| 0 <= q < out@.len() implies (#[trigger] out@[q]).name@ == name@
                        && 25 * out@[q].confidence.num >= 9 * out@[q].confidence.den
                        && out@[q].confidence.num <= out@[q].confidence.den by {
                        if q < before.len() {
                            assert(out@[q] == before[q]);
                        }
                    }
                }
            }
        }
        k = k + 1;
    }
}

/// Whether `a` comes before `b` in the order of `key_less`.
fn key_before(a: &String, b: &String) -> (r: bool)
    ensures
        r == key_less(a@, b@),
{
    let x = crate::strings::chars_of(a.as_str());
    let y = crate::strings::chars_of(b.as_str());
    let mut i: usize = 0;
    assert(x@.skip(0) =~= x@);
    assert(y@.skip(0) =~= y@);
    while i < x.len() && i < y.len()
        invariant
            x@ == a@,
            y@ == b@,
            0 <= i <= x@.len(),
            i <= y@.len(),
            key_less(x@, y@) == key_less(x@.skip(i as int), y@.skip(i as int)),
        decreases x@.len() - i,
    {
        if x[i] != y[i] {
            proof {
                assert(x@.skip(i as int)[0] == x@[i as int]);
                assert(y@.skip(i as int)[0] == y@[i as int]);
                assert(x@.skip(i as int).len() > 0 && y@.skip(i as int).len() > 0);
                assert(key_less(x@.skip(i as int), y@.skip(i as int)) == (x@[i as int] < y@[i as int]));
            }
            let cx = x[i];
            let cy = y[i];
            let lt = cx < cy;
            assert(lt == (x@[i as int] < y@[i as int]));
            return lt;
        }
        proof {
            assert(x@.skip(i as int).drop_first() =~= x@.skip(i + 1));
            assert(y@.skip(i as int).drop_first() =~= y@.skip(i + 1));
        }
        i = i + 1;
    }
    i == x.len() && i < y.len()
}

/// Whether two groups share a canonical value.
fn duplicate_key(groups: &Vec<(String, Vec<Vec<String>>)>) -> (r: bool)
    ensures
        r == has_duplicate_key(groups@.map_values(|g: (String, Vec<Vec<String>>)| (g.0@, occ_views(g.1@)))),
{
    let ghost gs = groups@.map_values(|g: (String, Vec<Vec<String>>)| (g.0@, occ_views(g.1@)));
    let mut g: usize = 0;
    while g < groups.len()
        invariant
            0 <= g <= groups@.len(),
            gs == groups@.map_values(|g: (String, Vec<Vec<String>>)| (g.0@, occ_views(g.1@))),
            forall|a: int, b: int| 0 <= a < b < groups@.len() && a < g ==> #[trigger] gs[a].0 != #[trigger] gs[b].0,
        decreases groups@.len() - g,
    {
        let mut h: usize = g + 1;
        while h < groups.len()
            invariant
                0 <= g < groups@.len(),
                g + 1 <= h <= groups@.len(),
                gs == groups@.map_values(|g: (String, Vec<Vec<String>>)| (g.0@, occ_views(g.1@))),
                forall|a: int, b: int| 0 <= a < b < groups@.len() && a < g ==> #[trigger] gs[a].0 != #[trigger] gs[b].0,
                forall|b: int| g < b < h ==> gs[g as int].0 != #[trigger] gs[b].0,
            decreases groups@.len() - h,
        {
            if groups[g].0 == groups[h].0 {
                assert(gs[g as int].0 == gs[h as int].0);
                return true;
            }
            h = h + 1;
        }
        g = g + 1;
    }
    false
}

proof fn next_after_range(groups: Seq<(Seq<char>, Seq<Seq<Seq<char>>>)>, prev: Option<int>)
    ensures
        next_after(groups, prev) matches Some(g) ==> 0 <= g < groups.len(),
{
    if exists|g: int| least_after(groups, prev, g) {
        let g = choose|g: int| least_after(groups, prev, g);
        assert(comes_after(groups, prev, g));
    }
}

/// The group that follows `prev` in the order of canonical keys.
fn next_group(groups: &Vec<(String, Vec<Vec<String>>)>, prev: Option<usize>) -> (r: Option<usize>)
    requires
        !has_duplicate_key(groups@.map_values(|g: (String, Vec<Vec<String>>)| (g.0@, occ_views(g.1@)))),
        prev matches Some(p) ==> p < groups@.len(),
    ensures
        (match r {
            Some(g) => Some(g as int),
            None => None::<int>,
        }) == next_after(
            groups@.map_values(|g: (String, Vec<Vec<String>>)| (g.0@, occ_views(g.1@))),
            match prev {
                Some(p) => Some(p as int),
                None => None::<int>,
            },
        ),
{
    let ghost gs = groups@.map_values(|g: (String, Vec<Vec<String>>)| (g.0@, occ_views(g.1@)));
    let ghost pv = match prev {
        Some(p) => Some(p as int),
        None => None::<int>,
    };
    let mut best: Option<usize> = None;
    let mut h: usize = 0;
    while h < groups.len()
        invariant
            0 <= h <= groups@.len(),
            gs == groups@.map_values(|g: (String, Vec<Vec<String>>)| (g.0@, occ_views(g.1@))),
            gs.len() == groups@.len(),
            pv == (match prev {
                Some(p) => Some(p as int),
                None => None::<int>,
            }),
            prev matches Some(p) ==> p < groups@.len(),
            match best {
                Some(b) => b < h && comes_after(gs, pv, b as int)
                    && forall|q: int| 0 <= q < h && #[trigger] comes_after(gs, pv, q) ==> !key_less(gs[q].0, gs[b as int].0),
                None => forall|q: int| 0 <= q < h ==> !#[trigger] comes_after(gs, pv, q),
            },
        decreases groups@.len() - h,
    {
        assert(gs[h as int].0 == groups@[h as int].0@);
        let after = match prev {
            Some(p) => {
                assert(gs[p as int].0 == groups@[p as int].0@);
                key_before(&groups[p].0, &groups[h].0)
            },
            None => true,
        };
        if after {
            let better = match best {
                Some(b) => {
                    assert(gs[b as int].0 == groups@[b as int].0@);
                    key_before(&groups[h].0, &groups[b].0)
                },
                None => true,
            };
            if better {
                proof {
                    if let Some(b) = best {
                        assert forall|q: int| 0 <= q < h + 1 && #[trigger] comes_after(gs, pv, q) implies !key_less(gs[q].0, gs[h as int].0) by {
                            if q < h && key_less(gs[q].0, gs[h as int].0) {
                                lemma_key_less_trans(gs[q].0, gs[h as int].0, gs[b as int].0);
                            }
                            if q == h {
                                lemma_key_less_total(gs[q].0, gs[q].0);
                            }
                        }
                    } else {
                        assert forall|q: int| 0 <= q < h + 1 && #[trigger] comes_after(gs, pv, q) implies !key_less(gs[q].0, gs[h as int].0) by {
                            if q == h {
                                lemma_key_less_total(gs[q].0, gs[q].0);
                            }
                        }
                    }
                }
                best = Some(h);
            } else {
                proof {
                    let b = best.unwrap();
                    assert(!key_less(gs[h as int].0, gs[b as int].0));
                }
            }
        }
        h = h + 1;
    }
    proof {
        match best {
            Some(b) => {
                assert(least_after(gs, pv, b as int));
                let c = choose|g: int| least_after(gs, pv, g);
                assert(least_after(gs, pv, c));
                assert(!key_less(gs[c].0, gs[b as int].0));
                assert(!key_less(gs[b as int].0, gs[c].0));
                lemma_key_less_total(gs[c].0, gs[b as int].0);
                if c != b as int {
                    if c < b {
                        assert(gs[c].0 != gs[b as int].0);
                    } else {
                        assert(gs[b as int].0 != gs[c].0);
                    }
                }
            },
            None => {
                assert(!exists|g: int| least_after(gs, pv, g));
            },
        }
    }
    best
}

/// Checks every occurrence of the model: none may be empty, nor longer than
/// `COUNT_LIMIT` characters.
fn check_occurrences(groups: &Vec<(String, Vec<Vec<String>>)>) -> (r: Result<(), ExtractError>)
    ensures
        r == if has_empty_occurrence(groups@.map_values(|g: (String, Vec<Vec<String>>)| (g.0@, occ_views(g.1@)))) {
            Err(ExtractError::EmptyOccurrence)
        } else if has_long_occurrence(groups@.map_values(|g: (String, Vec<Vec<String>>)| (g.0@, occ_views(g.1@)))) {
            Err(ExtractError::TextTooLong)
        } else {
            Ok(())
        },
{
    let ghost gs = groups@.map_values(|g: (String, Vec<Vec<String>>)| (g.0@, occ_views(g.1@)));
    let mut too_long = false;
    let mut g: usize = 0;
    while g < groups.len()
        invariant
            0 <= g <= groups@.len(),
            gs == groups@.map_values(|g: (String, Vec<Vec<String>>)| (g.0@, occ_views(g.1@))),
            forall|a: int, o: int| 0 <= a < g && 0 <= o < gs[a].1.len() ==> total_len(#[trigger] gs[a].1[o]) != 0,
            too_long == exists|a: int, o: int| 0 <= a < g && 0 <= o < gs[a].1.len() && total_len(#[trigger] gs[a].1[o]) > COUNT_LIMIT,
        decreases groups@.len() - g,
    {
        let occs = &groups[g].1;
        assert(gs[g as int].1 == occ_views(occs@));
        let mut o: usize = 0;
        while o < occs.len()
            invariant
                0 <= g < groups@.len(),
                0 <= o <= occs@.len(),
                gs == groups@.map_values(|g: (String, Vec<Vec<String>>)| (g.0@, occ_views(g.1@))),
                gs[g as int].1 == occ_views(occs@),
                forall|a: int, o: int| 0 <= a < g && 0 <= o < gs[a].1.len() ==> total_len(#[trigger] gs[a].1[o]) != 0,
                forall|q: int| 0 <= q < o ==> total_len(#[trigger] gs[g as int].1[q]) != 0,
                too_long == ((exists|a: int, o: int| 0 <= a < g && 0 <= o < gs[a].1.len() && total_len(#[trigger] gs[a].1[o]) > COUNT_LIMIT)
                    || exists|q: int| 0 <= q < o && total_len(#[trigger] gs[g as int].1[q]) > COUNT_LIMIT),
            decreases occs@.len() - o,
        {
            let n = capped_len(occs[o].as_slice());
            assert(gs[g as int].1[o as int] == texts(occs@[o as int]@));
            if n == 0 {
                assert(has_empty_occurrence(gs)) by {
                    assert(total_len(gs[g as int].1[o as int]) == 0);
                }
                return Err(ExtractError::EmptyOccurrence);
            }
            if n > COUNT_LIMIT {
                too_long = true;
            }
            o = o + 1;
        }
        proof {
            assert forall|a: int, q: int| 0 <= a < g + 1 && 0 <= q < gs[a].1.len() implies total_len(#[trigger] gs[a].1[q]) != 0 by {
                if a == g {
                    assert(total_len(gs[g as int].1[q]) != 0);
                }
            }
            if too_long {
                if exists|q: int| 0 <= q < occs@.len() && total_len(#[trigger] gs[g as int].1[q]) > COUNT_LIMIT {
                    let q = choose|q: int| 0 <= q < occs@.len() && total_len(#[trigger] gs[g as int].1[q]) > COUNT_LIMIT;
                    assert(total_len(gs[g as int].1[q]) > COUNT_LIMIT);
                }
            } else {
                assert forall|a: int, q: int| 0 <= a < g + 1 && 0 <= q < gs[a].1.len() implies !(total_len(#[trigger] gs[a].1[q]) > COUNT_LIMIT) by {
                    if a == g {
                        assert(!(total_len(gs[g as int].1[q]) > COUNT_LIMIT));
                    }
                }
            }
        }
        g = g + 1;
    }
    assert(gs.len() == groups@.len());
    if too_long {
        Err(ExtractError::TextTooLong)
    } else {
        Ok(())
    }
}

/// Recognizes the model's canonical values in the tokenized utterance `str_tokens`.
/// Every occurrence of every canonical value is tried at every token that is not only
/// spaces, over the window of tokens whose length best approaches the occurrence's;
/// within each canonical value, overlapping candidates after the first generated are
/// eliminated, and the candidates left whose confidence reaches 0.6 are returned,
/// canonical value by canonical value in increasing order of canonical value.
pub fn extract_for_list_model(str_tokens: &[String], list_model: &ListEntityModel) -> (r: Result<Vec<ListEntityExtraction>, ExtractError>)
    ensures
        extraction_matches(r, list_model.name@, extraction(texts(str_tokens@), groups_of(*list_model), list_model.fuzzy.pair())),
        r matches Ok(v) ==> forall|k: int| 0 <= k < v@.len() ==> 25 * (#[trigger] v@[k]).confidence.num >= 9 * v@[k].confidence.den
            && v@[k].confidence.num <= v@[k].confidence.den,
{
    let ghost ts = texts(str_tokens@);
    let ghost groups = groups_of(*list_model);
    let ghost th = list_model.fuzzy.pair();
    if duplicate_key(&list_model.tokens) {
        return Err(ExtractError::DuplicateCanonical);
    }
    match check_occurrences(&list_model.tokens) {
        Err(e) => {
            return Err(e);
        },
        Ok(()) => {},
    }
    if list_model.tokens.len() == 0 {
        return Ok(Vec::new());
    }
    if capped_len(str_tokens) > COUNT_LIMIT {
        return Err(ExtractError::TextTooLong);
    }
    let tokens = to_tokens(str_tokens);
    let mut out: Vec<ListEntityExtraction> = Vec::new();
    let mut cur: Option<usize> = None;
    let mut r: usize = 0;
    while r < list_model.tokens.len()
        invariant
            0 <= r <= groups.len(),
            groups == groups_of(*list_model),
            groups.len() == list_model.tokens@.len(),
            ts == texts(str_tokens@),
            th == list_model.fuzzy.pair(),
            !has_duplicate_key(groups),
            !has_empty_occurrence(groups),
            !has_long_occurrence(groups),
            total_len(ts) <= COUNT_LIMIT,
            tokens@.len() == ts.len(),
            forall|j: int| 0 <= j < tokens@.len() ==> token_spec(#[trigger] tokens@[j], ts, j),
            r > 0 ==> (match cur {
                Some(c) => Some(c as int),
                None => None::<int>,
            }) == order_at(groups, r - 1),
            cur matches Some(c) ==> c < groups.len(),
            forall|a: int, k: int| 0 <= a < r && 0 <= k < visit_candidates(ts, groups, th, a).len()
                ==> (#[trigger] visit_candidates(ts, groups, th, a)[k]).2 is Some,
            out_views(out@) == model_out(ts, groups, th, r as int),
            records_ok(out@, list_model.name@),
        decreases groups.len() - r,
    {
        let next = if r == 0 {
            next_group(&list_model.tokens, None)
        } else {
            match cur {
                Some(p) => next_group(&list_model.tokens, Some(p)),
                None => None,
            }
        };
        let ghost ord = order_at(groups, r as int);
        proof {
            next_after_range(groups, if r == 0 { None } else { ord });
        }
        match next {
            None => {
                proof {
                    assert(ord is None);
                    assert forall|a: int, k: int| 0 <= a < r + 1 && 0 <= k < visit_candidates(ts, groups, th, a).len()
                        implies (#[trigger] visit_candidates(ts, groups, th, a)[k]).2 is Some by {
                        if a == r {
                            assert(visit_candidates(ts, groups, th, a).len() == 0);
                        }
                    }
                }
            },
            Some(g) => {
                assert(ord == Some(g as int));
                let group = &list_model.tokens[g];
                proof {
                    assert(groups[g as int] == (group.0@, occ_views(group.1@)));
                    assert forall|o: int| 0 <= o < group.1@.len() implies 0 < #[trigger] total_len(texts(group.1@[o]@)) <= COUNT_LIMIT by {
                        assert(groups[g as int].1 == occ_views(group.1@));
                        assert(occ_views(group.1@)[o] == texts(group.1@[o]@));
                        assert(groups[g as int].1[o] == texts(group.1@[o]@));
                        assert(o < groups[g as int].1.len());
                        let gi = g as int;
                        assert(!(0 <= gi < groups.len() && 0 <= o < groups[gi].1.len() && total_len(groups[gi].1[o]) == 0));
                        assert(!(0 <= gi < groups.len() && 0 <= o < groups[gi].1.len() && total_len(groups[gi].1[o]) > COUNT_LIMIT));
                        lemma_chars_before_mono(groups[gi].1[o], 0, groups[gi].1[o].len() as int);
                    }
                }
                let cands = match search_group(&tokens, &group.1, list_model.fuzzy, Ghost(ts)) {
                    None => {
                        proof {
                            let cs = visit_candidates(ts, groups, th, r as int);
                            assert(cs == group_candidates(ts, groups[g as int].1, th));
                            let k = choose|k: int| 0 <= k < cs.len() && (#[trigger] cs[k]).2 is None;
                            assert(visit_candidates(ts, groups, th, r as int)[k].2 is None);
                            assert(has_unscored(ts, groups, th));
                        }
                        return Err(ExtractError::TextTooLong);
                    },
                    Some(c) => c,
                };
                let elim = eliminate(&cands, tokens.len());
                project_group(&tokens, &cands, &elim, &group.0, &list_model.name, &mut out, Ghost(ts));
                proof {
                    let cs = group_candidates(ts, groups[g as int].1, th);
                    assert(cands_view(cands@) == cs);
                    assert(cands@.len() == cs.len());
                    assert forall|a: int, k: int| 0 <= a < r + 1 && 0 <= k < visit_candidates(ts, groups, th, a).len()
                        implies (#[trigger] visit_candidates(ts, groups, th, a)[k]).2 is Some by {
                        if a == r {
                            assert(visit_candidates(ts, groups, th, a) == cs);
                            assert(cs[k] == cand_view(cands@[k]));
                        }
                    }
                }
            },
        }
        cur = next;
        r = r + 1;
    }
    proof {
        assert(!has_unscored(ts, groups, th));
        assert(out_views(out@).len() == out@.len());
        assert forall|k: int| 0 <= k < out@.len() implies (#[trigger] out@[k]).name@ == list_model.name@
            && extraction_view(out@[k]) == model_out(ts, groups, th, groups.len() as int)[k] by {
            assert(out_views(out@)[k] == extraction_view(out@[k]));
        }
    }
    Ok(out)
}

proof fn lemma_eliminated_monotone(cs: Seq<(int, int, Option<(int, int)>)>, p: int, q: int, k: int)
    requires
        0 <= p <= q,
        0 <= k < cs.len(),
        eliminated_after(cs, p)[k],
    ensures
        eliminated_after(cs, q)[k],
    decreases q - p,
{
    if p < q {
        lemma_eliminated_monotone(cs, p, q - 1, k);
    }
}

/// After elimination over the positions `0..n`, no two candidates that span a common
/// position both stand, and the first candidate generated always stands.
pub proof fn lemma_overlaps_eliminated(cs: Seq<(int, int, Option<(int, int)>)>, n: int, j: int, k: int, p: int)
    requires
        0 <= j < k < cs.len(),
        0 <= p < n,
        covers(cs[j], p),
        covers(cs[k], p),
    ensures
        eliminated_after(cs, n)[j] || eliminated_after(cs, n)[k],
        !eliminated_after(cs, n)[0],
{
    let e = eliminated_after(cs, p);
    if e[j] {
        lemma_eliminated_monotone(cs, p, n, j);
    } else {
        assert(eliminated_after(cs, p + 1)[k]);
        lemma_eliminated_monotone(cs, p + 1, n, k);
    }
    lemma_first_stands(cs, n);
}

proof fn lemma_first_stands(cs: Seq<(int, int, Option<(int, int)>)>, n: int)
    requires
        cs.len() > 0,
        0 <= n,
    ensures
        !eliminated_after(cs, n)[0],
    decreases n,
{
    if n > 0 {
        lemma_first_stands(cs, n - 1);
    }
}

/// Two results that both meet the contract of `extract_for_list_model` for the same
/// utterance and model are the same, record for record.
pub proof fn lemma_extraction_deterministic(
    ts: Seq<Seq<char>>,
    groups: Seq<(Seq<char>, Seq<Seq<Seq<char>>>)>,
    th: (int, int),
    name: Seq<char>,
    r1: Result<Vec<ListEntityExtraction>, ExtractError>,
    r2: Result<Vec<ListEntityExtraction>, ExtractError>,
)
    requires
        extraction_matches(r1, name, extraction(ts, groups, th)),
        extraction_matches(r2, name, extraction(ts, groups, th)),
    ensures
        match (r1, r2) {
            (Ok(v1), Ok(v2)) => v1@.len() == v2@.len() && forall|k: int| 0 <= k < v1@.len()
                ==> (#[trigger] v1@[k]).name@ == v2@[k].name@ && extraction_view(v1@[k]) == extraction_view(v2@[k]),
            (Err(e1), Err(e2)) => e1 == e2,
            _ => false,
        },
{
    match (r1, r2) {
        (Ok(v1), Ok(v2)) => {
            assert forall|k: int| 0 <= k < v1@.len() implies (#[trigger] v1@[k]).name@ == v2@[k].name@
                && extraction_view(v1@[k]) == extraction_view(v2@[k]) by {
                assert(v2@[k].name@ == name);
            }
        },
        _ => {},
    }
}

/// Groups `gs2` are groups `gs1` reordered: `gs2[i] == gs1[perm(i)]`, `perm` one to one.
pub open spec fn reordered(gs1: Seq<(Seq<char>, Seq<Seq<Seq<char>>>)>, gs2: Seq<(Seq<char>, Seq<Seq<Seq<char>>>)>, perm: spec_fn(int) -> int) -> bool {
    &&& gs1.len() == gs2.len()
    &&& forall|i: int| 0 <= i < gs2.len() ==> 0 <= #[trigger] perm(i) < gs1.len() && gs2[i] == gs1[perm(i)]
    &&& forall|i: int, j: int| 0 <= i < gs2.len() && 0 <= j < gs2.len() && i != j ==> #[trigger] perm(i) != #[trigger] perm(j)
    &&& forall|k: int| #![trigger gs1[k]] 0 <= k < gs1.len() ==> exists|i: int| 0 <= i < gs2.len() && #[trigger] perm(i) == k
}

proof fn lemma_least_unique(gs: Seq<(Seq<char>, Seq<Seq<Seq<char>>>)>, prev: Option<int>, g1: int, g2: int)
    requires
        !has_duplicate_key(gs),
        least_after(gs, prev, g1),
        least_after(gs, prev, g2),
    ensures
        g1 == g2,
{
    assert(comes_after(gs, prev, g1) && comes_after(gs, prev, g2));
    lemma_key_less_total(gs[g1].0, gs[g2].0);
    if g1 < g2 {
        assert(gs[g1].0 != gs[g2].0);
    } else if g2 < g1 {
        assert(gs[g2].0 != gs[g1].0);
    }
}

proof fn lemma_next_reordered(
    gs1: Seq<(Seq<char>, Seq<Seq<Seq<char>>>)>,
    gs2: Seq<(Seq<char>, Seq<Seq<Seq<char>>>)>,
    perm: spec_fn(int) -> int,
    p2: Option<int>,
)
    requires
        reordered(gs1, gs2, perm),
        !has_duplicate_key(gs1),
        !has_duplicate_key(gs2),
        p2 matches Some(p) ==> 0 <= p < gs2.len(),
    ensures
        match next_after(gs2, p2) {
            Some(g) => next_after(gs1, match p2 { Some(p) => Some(perm(p)), None => None }) == Some(perm(g)),
            None => next_after(gs1, match p2 { Some(p) => Some(perm(p)), None => None }) is None,
        },
{
    let p1 = match p2 { Some(p) => Some(perm(p)), None => None::<int> };
    assert forall|i: int| 0 <= i < gs2.len() implies comes_after(gs2, p2, i) == comes_after(gs1, p1, #[trigger] perm(i)) by {
        if let Some(p) = p2 {
            assert(gs2[p] == gs1[perm(p)]);
        }
        assert(gs2[i] == gs1[perm(i)]);
    }
    assert forall|i: int| 0 <= i < gs2.len() implies least_after(gs2, p2, i) == least_after(gs1, p1, #[trigger] perm(i)) by {
        assert(gs2[i] == gs1[perm(i)]);
        if least_after(gs2, p2, i) {
            assert forall|h: int| #[trigger] comes_after(gs1, p1, h) implies !key_less(gs1[h].0, gs1[perm(i)].0) by {
                let _ = gs1[h];
                let j = choose|j: int| 0 <= j < gs2.len() && #[trigger] perm(j) == h;
                assert(comes_after(gs2, p2, j));
                assert(gs2[j] == gs1[perm(j)]);
            }
        }
        if least_after(gs1, p1, perm(i)) {
            assert forall|h: int| #[trigger] comes_after(gs2, p2, h) implies !key_less(gs2[h].0, gs2[i].0) by {
                assert(comes_after(gs1, p1, perm(h)));
                assert(gs2[h] == gs1[perm(h)]);
            }
        }
    }
    if exists|g: int| least_after(gs2, p2, g) {
        let g = choose|g: int| least_after(gs2, p2, g);
        assert(least_after(gs1, p1, perm(g)));
        let g1 = choose|g: int| least_after(gs1, p1, g);
        lemma_least_unique(gs1, p1, g1, perm(g));
    } else {
        if exists|g: int| least_after(gs1, p1, g) {
            let g = choose|g: int| least_after(gs1, p1, g);
            let _ = gs1[g];
            let i = choose|i: int| 0 <= i < gs2.len() && #[trigger] perm(i) == g;
            assert(least_after(gs2, p2, i));
        }
    }
}

proof fn lemma_order_reordered(
    gs1: Seq<(Seq<char>, Seq<Seq<Seq<char>>>)>,
    gs2: Seq<(Seq<char>, Seq<Seq<Seq<char>>>)>,
    perm: spec_fn(int) -> int,
    r: int,
)
    requires
        reordered(gs1, gs2, perm),
        !has_duplicate_key(gs1),
        !has_duplicate_key(gs2),
        0 <= r,
    ensures
        match order_at(gs2, r) {
            Some(g) => 0 <= g < gs2.len() && order_at(gs1, r) == Some(perm(g)),
            None => order_at(gs1, r) is None,
        },
    decreases r,
{
    if r == 0 {
        lemma_next_reordered(gs1, gs2, perm, None);
        next_after_range(gs2, None);
    } else {
        lemma_order_reordered(gs1, gs2, perm, r - 1);
        match order_at(gs2, r - 1) {
            Some(p) => {
                lemma_next_reordered(gs1, gs2, perm, Some(p));
                next_after_range(gs2, Some(p));
            },
            None => {},
        }
    }
}

/// The extraction does not depend on the order in which the model lists its canonical
/// values: two models whose groups are the same up to reordering give the same result.
pub proof fn lemma_extraction_order_independent(
    ts: Seq<Seq<char>>,
    gs1: Seq<(Seq<char>, Seq<Seq<Seq<char>>>)>,
    gs2: Seq<(Seq<char>, Seq<Seq<Seq<char>>>)>,
    perm: spec_fn(int) -> int,
    th: (int, int),
)
    requires
        reordered(gs1, gs2, perm),
    ensures
        extraction(ts, gs1, th) == extraction(ts, gs2, th),
{
    if has_duplicate_key(gs2) {
        let (g, h) = choose|g: int, h: int| 0 <= g < h < gs2.len() && #[trigger] gs2[g].0 == #[trigger] gs2[h].0;
        assert(gs2[g] == gs1[perm(g)] && gs2[h] == gs1[perm(h)]);
        if perm(g) < perm(h) {
            assert(gs1[perm(g)].0 == gs1[perm(h)].0);
        } else {
            assert(gs1[perm(h)].0 == gs1[perm(g)].0);
        }
        return;
    }
    if has_duplicate_key(gs1) {
        let (g, h) = choose|g: int, h: int| 0 <= g < h < gs1.len() && #[trigger] gs1[g].0 == #[trigger] gs1[h].0;
        let _ = gs1[g];
        let _ = gs1[h];
        let i = choose|i: int| 0 <= i < gs2.len() && #[trigger] perm(i) == g;
        let j = choose|j: int| 0 <= j < gs2.len() && #[trigger] perm(j) == h;
        assert(gs2[i] == gs1[g] && gs2[j] == gs1[h]);
        if i < j {
            assert(gs2[i].0 == gs2[j].0);
        } else {
            assert(gs2[j].0 == gs2[i].0);
        }
        return;
    }
    assert(has_empty_occurrence(gs1) == has_empty_occurrence(gs2)) by {
        if has_empty_occurrence(gs1) {
            let (g, o) = choose|g: int, o: int| 0 <= g < gs1.len() && 0 <= o < gs1[g].1.len() && total_len(#[trigger] gs1[g].1[o]) == 0;
            let _ = gs1[g];
            let i = choose|i: int| 0 <= i < gs2.len() && #[trigger] perm(i) == g;
            assert(gs2[i] == gs1[g]);
            assert(total_len(gs2[i].1[o]) == 0);
        }
        if has_empty_occurrence(gs2) {
            let (g, o) = choose|g: int, o: int| 0 <= g < gs2.len() && 0 <= o < gs2[g].1.len() && total_len(#[trigger] gs2[g].1[o]) == 0;
            assert(gs2[g] == gs1[perm(g)]);
            assert(total_len(gs1[perm(g)].1[o]) == 0);
        }
    }
    assert(has_long_occurrence(gs1) == has_long_occurrence(gs2)) by {
        if has_long_occurrence(gs1) {
            let (g, o) = choose|g: int, o: int| 0 <= g < gs1.len() && 0 <= o < gs1[g].1.len() && total_len(#[trigger] gs1[g].1[o]) > COUNT_LIMIT;
            let _ = gs1[g];
            let i = choose|i: int| 0 <= i < gs2.len() && #[trigger] perm(i) == g;
            assert(gs2[i] == gs1[g]);
            assert(total_len(gs2[i].1[o]) > COUNT_LIMIT);
        }
        if has_long_occurrence(gs2) {
            let (g, o) = choose|g: int, o: int| 0 <= g < gs2.len() && 0 <= o < gs2[g].1.len() && total_len(#[trigger] gs2[g].1[o]) > COUNT_LIMIT;
            assert(gs2[g] == gs1[perm(g)]);
            assert(total_len(gs1[perm(g)].1[o]) > COUNT_LIMIT);
        }
    }
    assert forall|r: int| 0 <= r < gs2.len() implies #[trigger] visit_candidates(ts, gs1, th, r) == visit_candidates(ts, gs2, th, r) by {
        lemma_order_reordered(gs1, gs2, perm, r);
        if let Some(g) = order_at(gs2, r) {
            assert(gs2[g] == gs1[perm(g)]);
        }
    }
    assert(has_unscored(ts, gs1, th) == has_unscored(ts, gs2, th)) by {
        if has_unscored(ts, gs1, th) {
            let (r, k) = choose|r: int, k: int| 0 <= r < gs1.len() && 0 <= k < visit_candidates(ts, gs1, th, r).len()
                && (#[trigger] visit_candidates(ts, gs1, th, r)[k]).2 is None;
            assert(visit_candidates(ts, gs2, th, r)[k].2 is None);
        }
        if has_unscored(ts, gs2, th) {
            let (r, k) = choose|r: int, k: int| 0 <= r < gs2.len() && 0 <= k < visit_candidates(ts, gs2, th, r).len()
                && (#[trigger] visit_candidates(ts, gs2, th, r)[k]).2 is None;
            assert(visit_candidates(ts, gs1, th, r) == visit_candidates(ts, gs2, th, r));
            assert(visit_candidates(ts, gs1, th, r)[k].2 is None);
        }
    }
    lemma_model_out_reordered(ts, gs1, gs2, perm, th, gs2.len() as int);
}

proof fn lemma_model_out_reordered(
    ts: Seq<Seq<char>>,
    gs1: Seq<(Seq<char>, Seq<Seq<Seq<char>>>)>,
    gs2: Seq<(Seq<char>, Seq<Seq<Seq<char>>>)>,
    perm: spec_fn(int) -> int,
    th: (int, int),
    n: int,
)
    requires
        reordered(gs1, gs2, perm),
        !has_duplicate_key(gs1),
        !has_duplicate_key(gs2),
        0 <= n,
    ensures
        model_out(ts, gs1, th, n) == model_out(ts, gs2, th, n),
    decreases n,
{
    if n > 0 {
        lemma_model_out_reordered(ts, gs1, gs2, perm, th, n - 1);
        lemma_order_reordered(gs1, gs2, perm, n - 1);
        if let Some(g) = order_at(gs2, n - 1) {
            assert(gs2[g] == gs1[perm(g)]);
        }
    }
}

/// The record that candidate `k` gives.
pub open spec fn record_of(ts: Seq<Seq<char>>, canonical: Seq<char>, c: (int, int, Option<(int, int)>)) -> ExtractionView {
    (canonical, c.2.unwrap(), joined(ts.subrange(c.0, c.1 + 1)), chars_before(ts, c.0), chars_before(ts, c.1 + 1))
}

proof fn lemma_group_out_origin(ts: Seq<Seq<char>>, canonical: Seq<char>, cs: Seq<(int, int, Option<(int, int)>)>, e: Seq<bool>, n: int)
    requires
        0 <= n <= cs.len(),
        e.len() == cs.len(),
    ensures
        forall|i: int| 0 <= i < group_out(ts, canonical, cs, e, n).len() ==> exists|k: int| 0 <= k < n && !e[k]
            && #[trigger] group_out(ts, canonical, cs, e, n)[i] == record_of(ts, canonical, cs[k]),
    decreases n,
{
    if n > 0 {
        lemma_group_out_origin(ts, canonical, cs, e, n - 1);
        let prev = group_out(ts, canonical, cs, e, n - 1);
        let cur = group_out(ts, canonical, cs, e, n);
        assert forall|i: int| 0 <= i < cur.len() implies exists|k: int| 0 <= k < n && !e[k]
            && #[trigger] cur[i] == record_of(ts, canonical, cs[k]) by {
            if i < prev.len() {
                assert(cur[i] == prev[i]);
                let k = choose|k: int| 0 <= k < n - 1 && !e[k] && #[trigger] prev[i] == record_of(ts, canonical, cs[k]);
            } else {
                assert(cur[i] == record_of(ts, canonical, cs[n - 1]));
            }
        }
    }
}

/// Two records of one canonical value never overlap: the candidates left after
/// elimination span no common token, so their character ranges are disjoint.
pub proof fn lemma_group_records_disjoint(ts: Seq<Seq<char>>, canonical: Seq<char>, cs: Seq<(int, int, Option<(int, int)>)>, n: int)
    requires
        forall|k: int| 0 <= k < cs.len() ==> 0 <= (#[trigger] cs[k]).0 <= cs[k].1 < ts.len(),
        0 <= n <= cs.len(),
    ensures
        forall|i: int, j: int|
            #![trigger group_out(ts, canonical, cs, eliminated_after(cs, ts.len() as int), n)[i], group_out(ts, canonical, cs, eliminated_after(cs, ts.len() as int), n)[j]]
            0 <= i < j < group_out(ts, canonical, cs, eliminated_after(cs, ts.len() as int), n).len() ==> ({
                let out = group_out(ts, canonical, cs, eliminated_after(cs, ts.len() as int), n);
                out[i].4 <= out[j].3 || out[j].4 <= out[i].3
            }),
    decreases n,
{
    let e = eliminated_after(cs, ts.len() as int);
    if n > 0 {
        lemma_group_records_disjoint(ts, canonical, cs, n - 1);
        lemma_group_out_origin(ts, canonical, cs, e, n - 1);
        let prev = group_out(ts, canonical, cs, e, n - 1);
        let cur = group_out(ts, canonical, cs, e, n);
        assert forall|i: int, j: int| #![trigger cur[i], cur[j]] 0 <= i < j < cur.len() implies cur[i].4 <= cur[j].3 || cur[j].4 <= cur[i].3 by {
            if j < prev.len() {
                assert(cur[i] == prev[i] && cur[j] == prev[j]);
            } else {
                assert(cur[i] == prev[i]);
                let a = choose|k: int| 0 <= k < n - 1 && !e[k] && #[trigger] prev[i] == record_of(ts, canonical, cs[k]);
                let b = n - 1;
                assert(!e[b]);
                assert(cur[j] == record_of(ts, canonical, cs[b]));
                let ca = cs[a];
                let cb = cs[b];
                if !(ca.1 < cb.0 || cb.1 < ca.0) {
                    let p = if ca.0 >= cb.0 { ca.0 } else { cb.0 };
                    lemma_overlaps_eliminated(cs, ts.len() as int, a, b, p);
                }
                if ca.1 < cb.0 {
                    lemma_chars_before_mono(ts, ca.1 + 1, cb.0);
                } else {
                    lemma_chars_before_mono(ts, cb.1 + 1, ca.0);
                }
            }
        }
    }
}

} // verus!
