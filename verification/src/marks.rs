use vstd::prelude::*;
use crate::text::{str_chars, chars_to_string};

verus! {

pub open spec fn is_digit(c: char) -> bool {
    ('0' as u32) <= c as u32 && c as u32 <= ('9' as u32)
}

fn is_digit_char(c: char) -> (r: bool)
    ensures
        r == is_digit(c),
{
    ('0' as u32) <= c as u32 && c as u32 <= ('9' as u32)
}

/// The attribute fragment a footnote anchor carries.
pub open spec fn id_lit() -> Seq<char> {
    seq!['i', 'd', '=', '"', 'f', 'n', '-']
}

/// The closing tag that ends a footnote anchor.
pub open spec fn close_lit() -> Seq<char> {
    seq!['<', '/', 'a', '>']
}

/// lit occurs in s starting at position i.
pub open spec fn lit_at(s: Seq<char>, i: int, lit: Seq<char>) -> bool {
    0 <= i && i + lit.len() <= s.len() && s.subrange(i, i + lit.len()) == lit
}

/// Position of the first '>' at or after i, or the length when none is.
pub open spec fn find_gt(s: Seq<char>, i: int) -> int
    decreases s.len() - i,
{
    if i < 0 || i >= s.len() {
        s.len() as int
    } else if s[i] == '>' {
        i
    } else {
        find_gt(s, i + 1)
    }
}

proof fn lemma_find_gt_range(s: Seq<char>, i: int)
    requires
        0 <= i <= s.len(),
    ensures
        i <= find_gt(s, i) <= s.len(),
    decreases s.len() - i,
{
    if i < s.len() && s[i] != '>' {
        lemma_find_gt_range(s, i + 1);
    }
}

/// End of the run of decimal digits starting at i.
pub open spec fn digits_end(s: Seq<char>, i: int) -> int
    decreases s.len() - i,
{
    if i < 0 || i >= s.len() {
        i
    } else if is_digit(s[i]) {
        digits_end(s, i + 1)
    } else {
        i
    }
}

proof fn lemma_digits_end_range(s: Seq<char>, i: int)
    requires
        0 <= i <= s.len(),
    ensures
        i <= digits_end(s, i) <= s.len(),
    decreases s.len() - i,
{
    if i < s.len() && is_digit(s[i]) {
        lemma_digits_end_range(s, i + 1);
    }
}

/// An id="fn-<digits>" attribute occurs at q: the literal, then at least
/// one digit, then the closing quote.
pub open spec fn fn_id_at(s: Seq<char>, q: int) -> bool {
    &&& lit_at(s, q, id_lit())
    &&& digits_end(s, q + 7) > q + 7
    &&& digits_end(s, q + 7) < s.len()
    &&& s[digits_end(s, q + 7)] == '"'
}

/// Some position in [q, k) carries a whole fn- id attribute before k.
pub open spec fn has_fn_id_from(s: Seq<char>, q: int, k: int) -> bool
    decreases k - q,
{
    if q < 0 || q >= k {
        false
    } else if fn_id_at(s, q) && digits_end(s, q + 7) < k {
        true
    } else {
        has_fn_id_from(s, q + 1, k)
    }
}

pub open spec fn starts_anchor(s: Seq<char>, i: int) -> bool {
    0 <= i && i + 3 <= s.len() && s[i] == '<' && s[i + 1] == 'a' && s[i + 2] == ' '
}

/// A whole footnote anchor stands at i: an opening a tag whose attribute
/// region, ended by the first '>', carries an fn- id, then the anchor's
/// digit text, then the closing tag.
pub open spec fn anchor_match_at(s: Seq<char>, i: int) -> bool {
    &&& starts_anchor(s, i)
    &&& find_gt(s, i + 3) < s.len()
    &&& has_fn_id_from(s, i + 3, find_gt(s, i + 3))
    &&& digits_end(s, find_gt(s, i + 3) + 1) > find_gt(s, i + 3) + 1
    &&& lit_at(s, digits_end(s, find_gt(s, i + 3) + 1), close_lit())
}

/// The anchor's text content: the digits between '>' and the close tag.
pub open spec fn match_digits(s: Seq<char>, i: int) -> Seq<char> {
    s.subrange(find_gt(s, i + 3) + 1, digits_end(s, find_gt(s, i + 3) + 1))
}

/// Position just after the anchor's closing tag.
pub open spec fn match_end(s: Seq<char>, i: int) -> int {
    digits_end(s, find_gt(s, i + 3) + 1) + 4
}

proof fn lemma_match_end_bounds(s: Seq<char>, i: int)
    requires
        0 <= i < s.len(),
        anchor_match_at(s, i),
    ensures
        i < match_end(s, i) <= s.len(),
{
    lemma_find_gt_range(s, i + 3);
    let k = find_gt(s, i + 3);
    lemma_digits_end_range(s, k + 1);
}

/// The text with every footnote anchor from position i on replaced by
/// its digits in brackets, other characters kept as they are.
pub open spec fn rewrite_from(s: Seq<char>, i: int) -> Seq<char>
    decreases s.len() - i,
    via rewrite_from_dec
{
    if i < 0 || i >= s.len() {
        Seq::empty()
    } else if anchor_match_at(s, i) {
        seq!['['] + match_digits(s, i) + seq![']'] + rewrite_from(s, match_end(s, i))
    } else {
        seq![s[i]] + rewrite_from(s, i + 1)
    }
}

#[via_fn]
proof fn rewrite_from_dec(s: Seq<char>, i: int) {
    if 0 <= i < s.len() && anchor_match_at(s, i) {
        lemma_match_end_bounds(s, i);
    }
}

/// The footnote-marker normalization: every anchor with an fn- id
/// replaced, left to right and without overlap, by its text in brackets.
pub open spec fn rewrite_marks(s: Seq<char>) -> Seq<char> {
    rewrite_from(s, 0)
}

fn find_gt_exec(v: &Vec<char>, i: usize) -> (r: usize)
    requires
        i <= v@.len(),
    ensures
        r == find_gt(v@, i as int),
        i <= r <= v@.len(),
{
    let n = v.len();
    let mut j = i;
    while j < n && v[j] != '>'
        invariant
            n == v@.len(),
            i <= j <= n,
            find_gt(v@, i as int) == find_gt(v@, j as int),
        decreases n - j,
    {
        j += 1;
    }
    j
}

fn digits_end_exec(v: &Vec<char>, i: usize) -> (r: usize)
    requires
        i <= v@.len(),
    ensures
        r == digits_end(v@, i as int),
        i <= r <= v@.len(),
{
    let n = v.len();
    let mut j = i;
    while j < n && is_digit_char(v[j])
        invariant
            n == v@.len(),
            i <= j <= n,
            digits_end(v@, i as int) == digits_end(v@, j as int),
        decreases n - j,
    {
        j += 1;
    }
    j
}

fn is_id_lit_at(v: &Vec<char>, q: usize) -> (r: bool)
    ensures
        r == lit_at(v@, q as int, id_lit()),
{
    let n = v.len();
    if q >= n || n - q < 7 {
        proof {
            assert(!lit_at(v@, q as int, id_lit()));
        }
        return false;
    }
    let r = v[q] == 'i' && v[q + 1] == 'd' && v[q + 2] == '=' && v[q + 3] == '"' && v[q + 4] == 'f'
        && v[q + 5] == 'n' && v[q + 6] == '-';
    proof {
        if r {
            assert(v@.subrange(q as int, q + 7) =~= id_lit());
        } else {
            if lit_at(v@, q as int, id_lit()) {
                assert(forall|x: int|
                    0 <= x < 7 ==> v@.subrange(q as int, q + 7)[x] == id_lit()[x]);
                assert(false);
            }
        }
    }
    r
}

fn is_close_lit_at(v: &Vec<char>, q: usize) -> (r: bool)
    ensures
        r == lit_at(v@, q as int, close_lit()),
{
    let n = v.len();
    if q >= n || n - q < 4 {
        proof {
            assert(!lit_at(v@, q as int, close_lit()));
        }
        return false;
    }
    let r = v[q] == '<' && v[q + 1] == '/' && v[q + 2] == 'a' && v[q + 3] == '>';
    proof {
        if r {
            assert(v@.subrange(q as int, q + 4) =~= close_lit());
        } else {
            if lit_at(v@, q as int, close_lit()) {
                assert(forall|x: int|
                    0 <= x < 4 ==> v@.subrange(q as int, q + 4)[x] == close_lit()[x]);
                assert(false);
            }
        }
    }
    r
}

/// Decide whether a whole footnote anchor stands at i; on a match hand
/// back where its digits start and end and where the match ends.
fn try_match(v: &Vec<char>, i: usize) -> (r: Option<(usize, usize, usize)>)
    requires
        i < v@.len(),
    ensures
        r is Some <==> anchor_match_at(v@, i as int),
        r matches Some(t) ==> {
            &&& t.0 == find_gt(v@, i + 3) + 1
            &&& t.1 == digits_end(v@, t.0 as int)
            &&& t.2 == match_end(v@, i as int)
            &&& t.0 <= t.1 <= v@.len()
        },
{
    let n = v.len();
    if n - i < 3 {
        return None;
    }
    if !(v[i] == '<' && v[i + 1] == 'a' && v[i + 2] == ' ') {
        return None;
    }
    let k = find_gt_exec(v, i + 3);
    if k == n {
        return None;
    }
    let mut q = i + 3;
    let mut found = false;
    while q < k && !found
        invariant
            n == v@.len(),
            i + 3 <= q <= k < n,
            found ==> has_fn_id_from(v@, i + 3, k as int),
            !found ==> has_fn_id_from(v@, i + 3, k as int) == has_fn_id_from(
                v@,
                q as int,
                k as int,
            ),
        decreases k - q + (if found { 0int } else { 1int }),
    {
        if is_id_lit_at(v, q) {
            let de2 = digits_end_exec(v, q + 7);
            if de2 > q + 7 && de2 < k && v[de2] == '"' {
                found = true;
            }
        }
        if !found {
            q += 1;
        }
    }
    if !found {
        return None;
    }
    let d0 = k + 1;
    let de = digits_end_exec(v, d0);
    if de == d0 {
        return None;
    }
    if !is_close_lit_at(v, de) {
        return None;
    }
    proof {
        lemma_digits_end_range(v@, d0 as int);
    }
    Some((d0, de, de + 4))
}

/// Rewrite every footnote anchor in the text to its bracketed digits:
/// the pre-pass that runs before the document is parsed.
pub fn rewrite_footnote_marks(html: &str) -> (r: String)
    ensures
        r@ == rewrite_marks(html@),
{
    let v = str_chars(html);
    let n = v.len();
    let mut out: Vec<char> = Vec::new();
    let mut i: usize = 0;
    while i < n
        invariant
            n == v@.len(),
            v@ == html@,
            i <= n,
            out@ + rewrite_from(v@, i as int) == rewrite_from(v@, 0),
        decreases n - i,
    {
        let ghost prev_out = out@;
        match try_match(&v, i) {
            Some(t) => {
                let (d0, de, me) = t;
                proof {
                    lemma_match_end_bounds(v@, i as int);
                    assert(rewrite_from(v@, i as int) == seq!['['] + match_digits(v@, i as int)
                        + seq![']'] + rewrite_from(v@, me as int));
                }
                out.push('[');
                let mut t2 = d0;
                while t2 < de
                    invariant
                        n == v@.len(),
                        d0 <= t2 <= de <= n,
                        out@ == prev_out + seq!['['] + v@.subrange(d0 as int, t2 as int),
                    decreases de - t2,
                {
                    out.push(v[t2]);
                    proof {
                        assert(out@ =~= prev_out + seq!['['] + v@.subrange(d0 as int, t2 + 1));
                    }
                    t2 += 1;
                }
                out.push(']');
                proof {
                    assert(match_digits(v@, i as int) == v@.subrange(d0 as int, de as int));
                    assert(out@ =~= prev_out + (seq!['['] + match_digits(v@, i as int)
                        + seq![']']));
                    assert(out@ + rewrite_from(v@, me as int) =~= prev_out + rewrite_from(
                        v@,
                        i as int,
                    ));
                }
                i = me;
            },
            None => {
                out.push(v[i]);
                proof {
                    assert(rewrite_from(v@, i as int) == seq![v@[i as int]] + rewrite_from(
                        v@,
                        i + 1,
                    ));
                    assert(out@ + rewrite_from(v@, i + 1) =~= prev_out + rewrite_from(
                        v@,
                        i as int,
                    ));
                }
                i += 1;
            },
        }
    }
    proof {
        assert(out@ + rewrite_from(v@, n as int) =~= out@);
    }
    chars_to_string(&out)
}

proof fn lemma_rewrite_from_no_match(s: Seq<char>, i: int)
    requires
        0 <= i <= s.len(),
        forall|k: int| 0 <= k < s.len() ==> !anchor_match_at(s, k),
    ensures
        rewrite_from(s, i) == s.skip(i),
    decreases s.len() - i,
{
    if i == s.len() {
        assert(s.skip(i) =~= Seq::empty());
    } else {
        lemma_rewrite_from_no_match(s, i + 1);
        assert(seq![s[i]] + s.skip(i + 1) =~= s.skip(i));
    }
}

/// On text without footnote-anchor markup the normalization changes
/// nothing, so running it again on its own bracketed output is a no-op.
pub proof fn lemma_rewrite_no_anchor_identity(s: Seq<char>)
    requires
        forall|k: int| 0 <= k < s.len() ==> !anchor_match_at(s, k),
    ensures
        rewrite_marks(s) == s,
        rewrite_marks(rewrite_marks(s)) == rewrite_marks(s),
{
    lemma_rewrite_from_no_match(s, 0);
    assert(s.skip(0) =~= s);
}

} // verus!
