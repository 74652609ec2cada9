use vstd::prelude::*;
use crate::matching::{
    LabeledBlock, lb_view, lbs_view, match_blocks, near_perfect, norm_dist, scan_from,
    spec_best_match, spec_label,
};
use crate::distance::lemma_edit_distance_self;
use crate::text::views_of;

verus! {

/// Text of the first block from position j on whose label is source
/// index i, or the empty text when none is.
pub open spec fn first_labeled_from(
    labeled: Seq<(Seq<char>, Option<int>)>,
    i: int,
    j: int,
) -> Seq<char>
    decreases labeled.len() - j,
{
    if j < 0 || j >= labeled.len() {
        Seq::empty()
    } else if labeled[j].1 == Some(i) {
        labeled[j].0
    } else {
        first_labeled_from(labeled, i, j + 1)
    }
}

pub open spec fn first_labeled(labeled: Seq<(Seq<char>, Option<int>)>, i: int) -> Seq<char> {
    first_labeled_from(labeled, i, 0)
}

/// Texts of the blocks from position j on that carry no label, in order.
pub open spec fn unmatched_from(labeled: Seq<(Seq<char>, Option<int>)>, j: int) -> Seq<Seq<char>>
    decreases labeled.len() - j,
{
    if j < 0 || j >= labeled.len() {
        Seq::empty()
    } else {
        let rest = unmatched_from(labeled, j + 1);
        if labeled[j].1 is None {
            seq![labeled[j].0] + rest
        } else {
            rest
        }
    }
}

pub open spec fn empty_texts(k: nat) -> Seq<Seq<char>> {
    Seq::new(k, |x: int| Seq::<char>::empty())
}

/// The source side of the reconciled output: the source blocks in order,
/// padded with empty texts to the length of the current side.
pub open spec fn spec_source_out(
    source: Seq<Seq<char>>,
    labeled: Seq<(Seq<char>, Option<int>)>,
) -> Seq<Seq<char>> {
    source + empty_texts(unmatched_from(labeled, 0).len())
}

/// The current side of the reconciled output: for each source position
/// the first current block matched to it (or an empty text), followed by
/// the unmatched current blocks in current order.
pub open spec fn spec_current_out(
    source: Seq<Seq<char>>,
    labeled: Seq<(Seq<char>, Option<int>)>,
) -> Seq<Seq<char>> {
    Seq::new(source.len(), |k: int| first_labeled(labeled, k)) + unmatched_from(labeled, 0)
}

fn find_first_labeled(current: &Vec<LabeledBlock>, i: usize) -> (r: String)
    ensures
        r@ == first_labeled(lbs_view(current@), i as int),
{
    let ghost lab = lbs_view(current@);
    let n = current.len();
    let mut j: usize = 0;
    while j < n
        invariant
            n == current@.len(),
            lab == lbs_view(current@),
            lab.len() == n,
            j <= n,
            first_labeled(lab, i as int) == first_labeled_from(lab, i as int, j as int),
        decreases n - j,
    {
        proof {
            assert(lab[j as int] == lb_view(current@[j as int]));
        }
        let matched = match current[j].index {
            Some(x) => x == i,
            None => false,
        };
        if matched {
            return current[j].text.clone();
        }
        j += 1;
    }
    String::new()
}

/// Combine the source blocks and the labeled current blocks into two
/// equal-length parallel sequences: matched pairs aligned at the source
/// position, unmatched current blocks trailing against empty texts.
pub fn reconcile(source: &Vec<String>, current: &Vec<LabeledBlock>) -> (r: (
    Vec<String>,
    Vec<String>,
))
    ensures
        views_of(r.0@) == spec_source_out(views_of(source@), lbs_view(current@)),
        views_of(r.1@) == spec_current_out(views_of(source@), lbs_view(current@)),
        r.0@.len() == r.1@.len(),
{
    let ghost src = views_of(source@);
    let ghost lab = lbs_view(current@);
    let n = source.len();
    let mut source_out: Vec<String> = Vec::new();
    let mut current_out: Vec<String> = Vec::new();
    let mut i: usize = 0;
    while i < n
        invariant
            n == source@.len(),
            src == views_of(source@),
            lab == lbs_view(current@),
            src.len() == n,
            i <= n,
            source_out@.len() == i,
            current_out@.len() == i,
            forall|k: int| 0 <= k < i ==> source_out@[k]@ == src[k],
            forall|k: int| 0 <= k < i ==> current_out@[k]@ == first_labeled(lab, k),
        decreases n - i,
    {
        proof {
            assert(src[i as int] == source@[i as int]@);
        }
        source_out.push(source[i].clone());
        let t = find_first_labeled(current, i);
        current_out.push(t);
        i += 1;
    }
    proof {
        assert(views_of(current_out@) =~= Seq::new(src.len(), |k: int| first_labeled(lab, k)));
        assert(views_of(source_out@) =~= src);
    }
    let m = current.len();
    let mut j: usize = 0;
    while j < m
        invariant
            m == current@.len(),
            lab == lbs_view(current@),
            src == views_of(source@),
            lab.len() == m,
            j <= m,
            current_out@.len() >= src.len(),
            views_of(current_out@) + unmatched_from(lab, j as int) == Seq::new(
                src.len(),
                |k: int| first_labeled(lab, k),
            ) + unmatched_from(lab, 0),
            views_of(source_out@) == src,
        decreases m - j,
    {
        proof {
            assert(lab[j as int] == lb_view(current@[j as int]));
        }
        let unmatched = match current[j].index {
            None => true,
            Some(_) => false,
        };
        let ghost prev_views = views_of(current_out@);
        if unmatched {
            current_out.push(current[j].text.clone());
            proof {
                assert(views_of(current_out@) =~= prev_views + seq![lab[j as int].0]);
                assert(unmatched_from(lab, j as int) == seq![lab[j as int].0] + unmatched_from(
                    lab,
                    j + 1,
                ));
                assert(views_of(current_out@) + unmatched_from(lab, j + 1) =~= prev_views
                    + unmatched_from(lab, j as int));
            }
        }
        j += 1;
    }
    proof {
        assert(unmatched_from(lab, m as int) =~= Seq::<Seq<char>>::empty());
        assert(views_of(current_out@) =~= spec_current_out(src, lab));
    }
    while source_out.len() < current_out.len()
        invariant
            src == views_of(source@),
            lab == lbs_view(current@),
            source_out@.len() >= src.len(),
            source_out@.len() <= current_out@.len(),
            views_of(current_out@) == spec_current_out(src, lab),
            views_of(source_out@) =~= src + empty_texts((source_out@.len() - src.len()) as nat),
        decreases current_out@.len() - source_out@.len(),
    {
        let ghost prev_views = views_of(source_out@);
        source_out.push(String::new());
        proof {
            assert(views_of(source_out@) =~= prev_views + seq![Seq::<char>::empty()]);
            assert(views_of(source_out@) =~= src + empty_texts(
                (source_out@.len() - src.len()) as nat,
            ));
        }
    }
    proof {
        assert(source_out@.len() == current_out@.len());
        assert(current_out@.len() == src.len() + unmatched_from(lab, 0).len());
        assert(views_of(source_out@) =~= spec_source_out(src, lab));
    }
    (source_out, current_out)
}

/// The whole alignment over extracted blocks: label every current block
/// with its best source match, then reconcile both sides into two
/// equal-length parallel sequences.
pub fn align_blocks(source: &Vec<String>, current: &Vec<String>) -> (r: (Vec<String>, Vec<String>))
    ensures
        views_of(r.0@) == spec_source_out(
            views_of(source@),
            spec_label(views_of(source@), views_of(current@)),
        ),
        views_of(r.1@) == spec_current_out(
            views_of(source@),
            spec_label(views_of(source@), views_of(current@)),
        ),
        r.0@.len() == r.1@.len(),
{
    let labeled = match_blocks(source, current);
    reconcile(source, &labeled)
}

proof fn lemma_scan_hits_target(
    blocks: Seq<Seq<char>>,
    c: Seq<char>,
    tgt: int,
    j: int,
    best: Option<(int, nat, nat)>,
)
    requires
        0 <= j <= tgt < blocks.len(),
        blocks[tgt] == c,
        forall|k: int|
            0 <= k < blocks.len() && k != tgt ==> !near_perfect(
                norm_dist(c, blocks[k]).0,
                norm_dist(c, blocks[k]).1,
            ),
        best matches Some(t) ==> t.1 >= 1,
    ensures
        scan_from(blocks, c, j, best) == Some(tgt),
    decreases tgt - j,
{
    if j == tgt {
        let p = norm_dist(c, blocks[tgt]);
        lemma_edit_distance_self(c);
        assert(p.0 == 0);
        assert(p.1 >= 1);
        if best is Some {
            let t = best->Some_0;
            assert(t.1 * p.1 >= 1) by (nonlinear_arith)
                requires
                    t.1 >= 1,
                    p.1 >= 1,
            ;
        }
        assert(near_perfect(p.0, p.1));
    } else {
        let p = norm_dist(c, blocks[j]);
        assert(!near_perfect(p.0, p.1));
        assert(p.0 >= 1);
        lemma_scan_hits_target(blocks, c, tgt, j + 1, Some((j, p.0, p.1)));
        lemma_scan_hits_target(blocks, c, tgt, j + 1, best);
    }
}

proof fn lemma_unmatched_all_some(labeled: Seq<(Seq<char>, Option<int>)>, j: int)
    requires
        forall|k: int| 0 <= k < labeled.len() ==> labeled[k].1 is Some,
    ensures
        unmatched_from(labeled, j) == Seq::<Seq<char>>::empty(),
    decreases labeled.len() - j,
{
    if 0 <= j < labeled.len() {
        lemma_unmatched_all_some(labeled, j + 1);
    }
}

proof fn lemma_first_labeled_identity(labeled: Seq<(Seq<char>, Option<int>)>, i: int, j: int)
    requires
        0 <= j <= i < labeled.len(),
        forall|k: int| 0 <= k < labeled.len() ==> labeled[k].1 == Some(k),
    ensures
        first_labeled_from(labeled, i, j) == labeled[i].0,
    decreases i - j,
{
    if j < i {
        lemma_first_labeled_identity(labeled, i, j + 1);
    }
}

/// Round trip on identical documents: when source and current hold the
/// same blocks, every current block matches the source block at its own
/// index, and both reconciled sequences equal the original sequence.
/// Blocks at near-perfect distance from a distinct block are excluded:
/// on such input the greedy scan stops at the first near-perfect block,
/// not necessarily the block's own index.
pub proof fn lemma_identical_round_trip(blocks: Seq<Seq<char>>)
    requires
        forall|i: int, j: int|
            0 <= i < blocks.len() && 0 <= j < blocks.len() && i != j ==> !near_perfect(
                norm_dist(blocks[i], blocks[j]).0,
                norm_dist(blocks[i], blocks[j]).1,
            ),
    ensures
        forall|i: int|
            0 <= i < blocks.len() ==> spec_best_match(blocks, blocks[i]) == Some(i),
        spec_source_out(blocks, spec_label(blocks, blocks)) == blocks,
        spec_current_out(blocks, spec_label(blocks, blocks)) == blocks,
{
    assert forall|i: int| 0 <= i < blocks.len() implies spec_best_match(blocks, blocks[i]) == Some(
        i,
    ) by {
        lemma_scan_hits_target(blocks, blocks[i], i, 0, None);
    }
    let lab = spec_label(blocks, blocks);
    assert(forall|k: int| 0 <= k < lab.len() ==> lab[k].1 == Some(k));
    lemma_unmatched_all_some(lab, 0);
    assert(spec_source_out(blocks, lab) =~= blocks);
    assert forall|i: int| 0 <= i < blocks.len() implies first_labeled(lab, i) == blocks[i] by {
        lemma_first_labeled_identity(lab, i, 0);
    }
    assert(spec_current_out(blocks, lab) =~= blocks);
}

} // verus!
