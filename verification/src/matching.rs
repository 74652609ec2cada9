use vstd::prelude::*;
use crate::distance::{edit_distance, levenshtein, lemma_edit_distance_le_max};
use crate::text::{views_of, str_chars};

verus! {

/// A block of the current document together with the index of the source
/// block it was matched to, if any.
pub struct LabeledBlock {
    pub text: String,
    pub index: Option<usize>,
}

/// A labeled block as a pair of its text and its optional source index.
pub open spec fn lb_view(b: LabeledBlock) -> (Seq<char>, Option<int>) {
    (b.text@, opt_index_view(b.index))
}

pub open spec fn lbs_view(s: Seq<LabeledBlock>) -> Seq<(Seq<char>, Option<int>)> {
    s.map_values(|b: LabeledBlock| lb_view(b))
}

pub open spec fn opt_index_view(o: Option<usize>) -> Option<int> {
    match o {
        Some(u) => Some(u as int),
        None => None,
    }
}

/// The normalized distance between two texts, as an exact rational
/// numerator/denominator pair: the edit distance over the longer length,
/// taken as 0/1 when both texts are empty.
pub open spec fn norm_dist(a: Seq<char>, b: Seq<char>) -> (nat, nat) {
    let m = if a.len() >= b.len() {
        a.len()
    } else {
        b.len()
    };
    if m == 0 {
        (0nat, 1nat)
    } else {
        (edit_distance(a, b), m)
    }
}

/// l/m is strictly below the best distance seen so far; with no best yet,
/// any distance counts as an improvement.
pub open spec fn improves(l: nat, m: nat, best: Option<(int, nat, nat)>) -> bool {
    match best {
        None => true,
        Some(t) => l * t.2 < t.1 * m,
    }
}

/// l/m is at or below the near-zero cutoff of one thousandth: such a
/// match is exact enough to stop the scan.
pub open spec fn near_perfect(l: nat, m: nat) -> bool {
    1000 * l <= m
}

/// The greedy scan over the source blocks from index i on, carrying the
/// best match seen so far: a candidate is taken when its normalized
/// distance is at most one (the threshold) and strictly better than the
/// best so far, and the scan stops at the first near-perfect take.
pub open spec fn scan_from(
    source: Seq<Seq<char>>,
    c: Seq<char>,
    i: int,
    best: Option<(int, nat, nat)>,
) -> Option<int>
    decreases source.len() - i,
{
    if i < 0 || i >= source.len() {
        match best {
            Some(t) => Some(t.0),
            None => None,
        }
    } else {
        let p = norm_dist(c, source[i]);
        if p.0 <= p.1 && improves(p.0, p.1, best) {
            if near_perfect(p.0, p.1) {
                Some(i)
            } else {
                scan_from(source, c, i + 1, Some((i, p.0, p.1)))
            }
        } else {
            scan_from(source, c, i + 1, best)
        }
    }
}

/// Index of the source block most similar to c under the greedy scan, or
/// None when no block is eligible.
pub open spec fn spec_best_match(source: Seq<Seq<char>>, c: Seq<char>) -> Option<int> {
    scan_from(source, c, 0, None)
}

/// A candidate is always eligible against the threshold: the edit
/// distance never exceeds the longer length.
pub proof fn lemma_dist_at_most_one(a: Seq<char>, b: Seq<char>)
    ensures
        norm_dist(a, b).0 <= norm_dist(a, b).1,
{
    lemma_edit_distance_le_max(a, b);
}

proof fn lemma_scan_some(source: Seq<Seq<char>>, c: Seq<char>, i: int, best: (int, nat, nat))
    ensures
        scan_from(source, c, i, Some(best)) is Some,
    decreases source.len() - i,
{
    if 0 <= i < source.len() {
        let p = norm_dist(c, source[i]);
        if p.0 <= p.1 && improves(p.0, p.1, Some(best)) {
            if !near_perfect(p.0, p.1) {
                lemma_scan_some(source, c, i + 1, (i, p.0, p.1));
            }
        } else {
            lemma_scan_some(source, c, i + 1, best);
        }
    }
}

/// With a non-empty source sequence a match is always found: the first
/// block is eligible, and from then on some best match is carried to the
/// end of the scan.
pub proof fn lemma_nonempty_source_always_matches(source: Seq<Seq<char>>, c: Seq<char>)
    requires
        source.len() > 0,
    ensures
        spec_best_match(source, c) is Some,
{
    let p = norm_dist(c, source[0]);
    lemma_dist_at_most_one(c, source[0]);
    if !near_perfect(p.0, p.1) {
        lemma_scan_some(source, c, 1, (0, p.0, p.1));
    }
}

proof fn lemma_usize_mul_fits(a: usize, b: usize)
    ensures
        (a as nat) * (b as nat) <= u128::MAX,
{
    assert(a as nat <= 0xFFFF_FFFF_FFFF_FFFF);
    assert(b as nat <= 0xFFFF_FFFF_FFFF_FFFF);
    assert((a as nat) * (b as nat) <= 0xFFFF_FFFF_FFFF_FFFF * 0xFFFF_FFFF_FFFF_FFFF)
        by (nonlinear_arith)
        requires
            a as nat <= 0xFFFF_FFFF_FFFF_FFFF,
            b as nat <= 0xFFFF_FFFF_FFFF_FFFF,
    ;
}

spec fn cur_best(bi: Option<usize>, bl: usize, bm: usize) -> Option<(int, nat, nat)> {
    match bi {
        Some(x) => Some((x as int, bl as nat, bm as nat)),
        None => None,
    }
}

/// Index of the source block most similar to c: scan in source order,
/// keep the strictly best normalized distance within the threshold, and
/// stop early at the first near-perfect match.
pub fn best_match(source: &Vec<String>, c: &str) -> (r: Option<usize>)
    ensures
        opt_index_view(r) == spec_best_match(views_of(source@), c@),
        source@.len() > 0 ==> r is Some,
        source@.len() == 0 ==> r is None,
{
    proof {
        if source@.len() > 0 {
            lemma_nonempty_source_always_matches(views_of(source@), c@);
        }
    }
    let ghost src = views_of(source@);
    let cv = str_chars(c);
    let mut best_idx: Option<usize> = None;
    let mut best_l: usize = 0;
    let mut best_m: usize = 0;
    let n = source.len();
    let mut i: usize = 0;
    while i < n
        invariant
            n == source@.len(),
            src == views_of(source@),
            src.len() == n,
            cv@ == c@,
            i <= n,
            best_idx matches Some(x) ==> x < i,
            spec_best_match(src, c@) == scan_from(src, c@, i as int, cur_best(best_idx, best_l, best_m)),
        decreases n - i,
    {
        proof {
            assert(src[i as int] == source@[i as int]@);
        }
        let sv = str_chars(source[i].as_str());
        let l = levenshtein(&cv, &sv);
        let m = if cv.len() >= sv.len() {
            cv.len()
        } else {
            sv.len()
        };
        let pl: usize = if m == 0 {
            0
        } else {
            l
        };
        let pm: usize = if m == 0 {
            1
        } else {
            m
        };
        proof {
            assert((pl as nat, pm as nat) == norm_dist(c@, src[i as int]));
        }
        proof {
            lemma_usize_mul_fits(pl, best_m);
            lemma_usize_mul_fits(best_l, pm);
            lemma_usize_mul_fits(1000, pl);
        }
        let eligible = pl <= pm && (match best_idx {
            None => true,
            Some(_) => (pl as u128) * (best_m as u128) < (best_l as u128) * (pm as u128),
        });
        if eligible {
            if 1000u128 * (pl as u128) <= pm as u128 {
                return Some(i);
            }
            best_idx = Some(i);
            best_l = pl;
            best_m = pm;
        }
        i += 1;
    }
    best_idx
}

/// Label every block of the current document with its best source match.
pub open spec fn spec_label(source: Seq<Seq<char>>, current: Seq<Seq<char>>) -> Seq<
    (Seq<char>, Option<int>),
> {
    Seq::new(current.len(), |k: int| (current[k], spec_best_match(source, current[k])))
}

/// Match each current block against the source blocks independently, in
/// current order, keeping the block's text with its match result.
pub fn match_blocks(source: &Vec<String>, current: &Vec<String>) -> (r: Vec<LabeledBlock>)
    ensures
        lbs_view(r@) == spec_label(views_of(source@), views_of(current@)),
{
    let ghost src = views_of(source@);
    let ghost cur = views_of(current@);
    let mut out: Vec<LabeledBlock> = Vec::new();
    let n = current.len();
    let mut i: usize = 0;
    while i < n
        invariant
            n == current@.len(),
            src == views_of(source@),
            cur == views_of(current@),
            cur.len() == n,
            i <= n,
            out@.len() == i,
            forall|k: int|
                0 <= k < i ==> lb_view(out@[k]) == (cur[k], spec_best_match(src, cur[k])),
        decreases n - i,
    {
        proof {
            assert(cur[i as int] == current@[i as int]@);
        }
        let text = current[i].clone();
        let index = best_match(source, text.as_str());
        out.push(LabeledBlock { text, index });
        i += 1;
    }
    proof {
        assert(lbs_view(out@) =~= spec_label(src, cur));
    }
    out
}

} // verus!
