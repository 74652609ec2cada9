use vstd::prelude::*;
use crate::text::{views_of, chars_to_string, str_chars};

verus! {

broadcast use vstd::seq_lib::group_to_multiset_ensures;

/// What the HTML parser yields for the footnote entries: the serialized
/// HTML of each element matching `.footnotes li`, in document order.
pub uninterp spec fn footnote_items(html: Seq<char>) -> Seq<Seq<char>>;

/// Relies on scraper::Html::parse_document, scraper::Selector::parse and
/// scraper::ElementRef::html: parse the document and serialize each
/// element matching `.footnotes li`, in document order.
#[verifier::external_body]
fn select_footnote_items(html: &str) -> (r: Vec<String>)
    ensures
        views_of(r@) == footnote_items(html@),
{
    let selector = scraper::Selector::parse(".footnotes li").unwrap();
    let document = scraper::Html::parse_document(html);
    let mut out: Vec<String> = Vec::new();
    for element in document.select(&selector) {
        out.push(element.html());
    }
    out
}

/// The footnote entries of a document, one serialized element each.
pub fn extract_footnotes(html: &str) -> (r: Vec<String>)
    ensures
        views_of(r@) == footnote_items(html@),
{
    select_footnote_items(html)
}

/// The decimal digits of n, most significant first.
pub open spec fn digits_of(n: nat) -> Seq<char>
    decreases n,
{
    if n < 10 {
        seq![digit_char(n as int)]
    } else {
        digits_of(n / 10) + seq![digit_char((n % 10) as int)]
    }
}

pub open spec fn digit_char(d: int) -> char {
    if d == 0 {
        '0'
    } else if d == 1 {
        '1'
    } else if d == 2 {
        '2'
    } else if d == 3 {
        '3'
    } else if d == 4 {
        '4'
    } else if d == 5 {
        '5'
    } else if d == 6 {
        '6'
    } else if d == 7 {
        '7'
    } else if d == 8 {
        '8'
    } else {
        '9'
    }
}

fn digit_char_exec(d: usize) -> (r: char)
    requires
        d < 10,
    ensures
        r == digit_char(d as int),
{
    if d == 0 {
        '0'
    } else if d == 1 {
        '1'
    } else if d == 2 {
        '2'
    } else if d == 3 {
        '3'
    } else if d == 4 {
        '4'
    } else if d == 5 {
        '5'
    } else if d == 6 {
        '6'
    } else if d == 7 {
        '7'
    } else if d == 8 {
        '8'
    } else {
        '9'
    }
}

fn push_digits(n: usize, out: &mut Vec<char>)
    ensures
        final(out)@ == old(out)@ + digits_of(n as nat),
    decreases n,
{
    if n < 10 {
        out.push(digit_char_exec(n));
        proof {
            assert(out@ =~= old(out)@ + digits_of(n as nat));
        }
    } else {
        push_digits(n / 10, out);
        out.push(digit_char_exec(n % 10));
        proof {
            assert(out@ =~= old(out)@ + digits_of(n as nat));
        }
    }
}

/// The number written in decimal.
pub fn usize_to_string(n: usize) -> (r: String)
    ensures
        r@ == digits_of(n as nat),
{
    let mut out: Vec<char> = Vec::new();
    push_digits(n, &mut out);
    chars_to_string(&out)
}

/// A fragment reference to index n: `#` then the digits.
pub open spec fn fragment_of(n: nat) -> Seq<char> {
    seq!['#'] + digits_of(n)
}

pub fn format_fragment(n: usize) -> (r: String)
    ensures
        r@ == fragment_of(n as nat),
{
    let mut out: Vec<char> = Vec::new();
    out.push('#');
    push_digits(n, &mut out);
    proof {
        assert(out@ =~= fragment_of(n as nat));
    }
    chars_to_string(&out)
}

/// The anchor id for index n: `fn-` then the digits.
pub open spec fn fn_id_of(n: nat) -> Seq<char> {
    seq!['f', 'n', '-'] + digits_of(n)
}

pub fn format_fn_id(n: usize) -> (r: String)
    ensures
        r@ == fn_id_of(n as nat),
{
    let mut out: Vec<char> = Vec::new();
    out.push('f');
    out.push('n');
    out.push('-');
    push_digits(n, &mut out);
    proof {
        assert(out@ =~= fn_id_of(n as nat));
    }
    chars_to_string(&out)
}

/// A fragment reference to the anchor id for n: `#fn-` then the digits.
pub open spec fn fn_fragment_of(n: nat) -> Seq<char> {
    seq!['#', 'f', 'n', '-'] + digits_of(n)
}

pub fn format_fn_fragment(n: usize) -> (r: String)
    ensures
        r@ == fn_fragment_of(n as nat),
{
    let mut out: Vec<char> = Vec::new();
    out.push('#');
    out.push('f');
    out.push('n');
    out.push('-');
    push_digits(n, &mut out);
    proof {
        assert(out@ =~= fn_fragment_of(n as nat));
    }
    chars_to_string(&out)
}

/// The string with its first k characters removed, or empty when it is
/// shorter than k.
pub open spec fn spec_skip_chars(s: Seq<char>, k: int) -> Seq<char> {
    if k <= s.len() {
        s.skip(k)
    } else {
        Seq::empty()
    }
}

pub fn skip_chars(s: &str, k: usize) -> (r: String)
    ensures
        r@ == spec_skip_chars(s@, k as int),
{
    let v = str_chars(s);
    let n = v.len();
    let mut out: Vec<char> = Vec::new();
    let mut i: usize = if k <= n {
        k
    } else {
        n
    };
    let ghost start = i as int;
    while i < n
        invariant
            n == v@.len(),
            v@ == s@,
            0 <= start <= i <= n,
            out@ == v@.subrange(start, i as int),
        decreases n - i,
    {
        out.push(v[i]);
        proof {
            assert(out@ =~= v@.subrange(start, i + 1));
        }
        i += 1;
    }
    proof {
        if k <= n {
            assert(out@ =~= s@.skip(k as int));
        } else {
            assert(out@ =~= Seq::<char>::empty());
        }
    }
    chars_to_string(&out)
}

/// Old-to-new footnote index assignments, in assignment order; new
/// indices start at one.
pub struct Renumbering {
    pub next: usize,
    pub pairs: Vec<(String, usize)>,
}

pub open spec fn pairs_view(s: Seq<(String, usize)>) -> Seq<(Seq<char>, usize)> {
    s.map_values(|p: (String, usize)| (p.0@, p.1))
}

pub open spec fn lookup_from(pairs: Seq<(Seq<char>, usize)>, id: Seq<char>, j: int) -> Option<
    usize,
>
    decreases pairs.len() - j,
{
    if j < 0 || j >= pairs.len() {
        None
    } else if pairs[j].0 == id {
        Some(pairs[j].1)
    } else {
        lookup_from(pairs, id, j + 1)
    }
}

/// New index recorded for an old footnote id: first recording wins.
pub open spec fn spec_lookup(pairs: Seq<(Seq<char>, usize)>, id: Seq<char>) -> Option<usize> {
    lookup_from(pairs, id, 0)
}

impl Renumbering {
    pub open spec fn wf(self) -> bool {
        self.next == self.pairs@.len() + 1
    }

    pub fn new() -> (r: Renumbering)
        ensures
            r.wf(),
            r.pairs@.len() == 0,
            r.next == 1,
    {
        Renumbering { next: 1, pairs: Vec::new() }
    }

    /// Assign the next one-based index to an old footnote id.
    pub fn record(&mut self, old_id: String) -> (r: usize)
        requires
            old(self).wf(),
            old(self).next < usize::MAX,
        ensures
            final(self).wf(),
            r == old(self).next,
            pairs_view(final(self).pairs@) == pairs_view(old(self).pairs@).push((old_id@, r)),
    {
        let r = self.next;
        let ghost prev = pairs_view(self.pairs@);
        self.pairs.push((old_id, r));
        self.next = self.next + 1;
        proof {
            assert(pairs_view(self.pairs@) =~= prev.push((old_id@, r)));
        }
        r
    }

    /// The new index assigned to an old footnote id, if one was.
    pub fn lookup(&self, id: &String) -> (r: Option<usize>)
        ensures
            r == spec_lookup(pairs_view(self.pairs@), id@),
    {
        let ghost pv = pairs_view(self.pairs@);
        let n = self.pairs.len();
        let mut j: usize = 0;
        while j < n
            invariant
                n == self.pairs@.len(),
                pv == pairs_view(self.pairs@),
                pv.len() == n,
                j <= n,
                spec_lookup(pv, id@) == lookup_from(pv, id@, j as int),
            decreases n - j,
        {
            proof {
                assert(pv[j as int] == (self.pairs@[j as int].0@, self.pairs@[j as int].1));
            }
            if self.pairs[j].0.eq(id) {
                return Some(self.pairs[j].1);
            }
            j += 1;
        }
        None
    }
}

/// Sorted by new index, ascending.
pub open spec fn sorted_by_index(s: Seq<(String, usize)>) -> bool {
    forall|i: int, j: int| 0 <= i < j < s.len() ==> s[i].1 <= s[j].1
}

/// Sort the footnote entries by their new index: the result holds the
/// same entries, ordered by index; among equal indices the first minimal
/// entry is taken first.
pub fn sort_by_index(v: Vec<(String, usize)>) -> (r: Vec<(String, usize)>)
    ensures
        r@.to_multiset() == v@.to_multiset(),
        r@.len() == v@.len(),
        sorted_by_index(r@),
{
    let mut work = v;
    let ghost orig = work@;
    let mut out: Vec<(String, usize)> = Vec::new();
    while work.len() > 0
        invariant
            out@.to_multiset().add(work@.to_multiset()) == orig.to_multiset(),
            out@.len() + work@.len() == orig.len(),
            sorted_by_index(out@),
            forall|a: int, b: int|
                0 <= a < out@.len() && 0 <= b < work@.len() ==> out@[a].1 <= work@[b].1,
        decreases work@.len(),
    {
        let n = work.len();
        let mut mi: usize = 0;
        let mut j: usize = 1;
        while j < n
            invariant
                n == work@.len(),
                mi < j <= n,
                forall|b: int| 0 <= b < j ==> work@[mi as int].1 <= work@[b].1,
            decreases n - j,
        {
            if work[j].1 < work[mi].1 {
                mi = j;
            }
            j += 1;
        }
        let ghost prev_out = out@;
        let ghost prev_work = work@;
        let x = work.remove(mi);
        out.push(x);
        proof {
            assert(prev_work.remove(mi as int).to_multiset() =~= prev_work.to_multiset().remove(
                prev_work[mi as int],
            ));
            assert(out@.to_multiset() =~= prev_out.to_multiset().insert(x));
            assert(out@.to_multiset().add(work@.to_multiset()) =~= orig.to_multiset());
            assert forall|a: int, b: int|
                0 <= a < out@.len() && 0 <= b < work@.len() implies out@[a].1 <= work@[b].1 by {
                if b < mi {
                    assert(work@[b] == prev_work[b]);
                } else {
                    assert(work@[b] == prev_work[b + 1]);
                }
            };
        }
    }
    proof {
        assert(out@.to_multiset().add(work@.to_multiset()) =~= out@.to_multiset());
    }
    out
}

} // verus!
