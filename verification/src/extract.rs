use vstd::prelude::*;
use crate::marks::{rewrite_marks, rewrite_footnote_marks};
use crate::text::{views_of, normalized, normalize_text, is_space};

verus! {

/// What the HTML parser yields for a document: the concatenated
/// descendant text of each selected text-bearing element, in document
/// order, one entry per element.
pub uninterp spec fn element_texts(html: Seq<char>) -> Seq<Seq<char>>;

/// Relies on scraper::Html::parse_document, scraper::Selector::parse and
/// scraper::ElementRef::text: parse the document, take the elements
/// matching `p, h1, h2, h3, h4, h5, h6, li, figcaption` in document
/// order, and concatenate each element's descendant text nodes in
/// document order.
#[verifier::external_body]
fn select_element_texts(html: &str) -> (r: Vec<String>)
    ensures
        views_of(r@) == element_texts(html@),
{
    let selector = scraper::Selector::parse("p, h1, h2, h3, h4, h5, h6, li, figcaption").unwrap();
    let document = scraper::Html::parse_document(html);
    let mut out: Vec<String> = Vec::new();
    for element in document.select(&selector) {
        let mut text = String::new();
        for piece in element.text() {
            text.push_str(piece);
        }
        out.push(text);
    }
    out
}

/// Element texts from position i on, each normalized, the empty ones
/// dropped.
pub open spec fn clean_from(texts: Seq<Seq<char>>, i: int) -> Seq<Seq<char>>
    decreases texts.len() - i,
{
    if i < 0 || i >= texts.len() {
        Seq::empty()
    } else {
        let t = normalized(texts[i]);
        let rest = clean_from(texts, i + 1);
        if t.len() > 0 {
            seq![t] + rest
        } else {
            rest
        }
    }
}

pub open spec fn clean_blocks(texts: Seq<Seq<char>>) -> Seq<Seq<char>> {
    clean_from(texts, 0)
}

/// The ordered text blocks of an HTML document: footnote markers
/// rewritten first, the document parsed, each selected element's text
/// whitespace-normalized, elements with empty normalized text dropped.
pub open spec fn spec_extract_blocks(html: Seq<char>) -> Seq<Seq<char>> {
    clean_blocks(element_texts(rewrite_marks(html)))
}

/// Extract the ordered, normalized, non-empty text blocks of a document.
pub fn extract_blocks(html: &str) -> (r: Vec<String>)
    ensures
        views_of(r@) == spec_extract_blocks(html@),
        forall|k: int| 0 <= k < r@.len() ==> r@[k]@.len() > 0,
{
    let rewritten = rewrite_footnote_marks(html);
    let texts = select_element_texts(rewritten.as_str());
    let ghost tv = views_of(texts@);
    let mut out: Vec<String> = Vec::new();
    let n = texts.len();
    let mut i: usize = 0;
    while i < n
        invariant
            n == texts@.len(),
            tv == views_of(texts@),
            tv.len() == n,
            i <= n,
            views_of(out@) + clean_from(tv, i as int) == clean_from(tv, 0),
            forall|k: int| 0 <= k < out@.len() ==> out@[k]@.len() > 0,
        decreases n - i,
    {
        proof {
            assert(tv[i as int] == texts@[i as int]@);
        }
        let ghost prev = views_of(out@);
        let t = normalize_text(texts[i].as_str());
        if !t.as_str().is_empty() {
            out.push(t);
            proof {
                assert(views_of(out@) =~= prev + seq![normalized(tv[i as int])]);
                assert(clean_from(tv, i as int) == seq![normalized(tv[i as int])] + clean_from(
                    tv,
                    i + 1,
                ));
                assert(views_of(out@) + clean_from(tv, i + 1) =~= prev + clean_from(tv, i as int));
            }
        } else {
            proof {
                assert(clean_from(tv, i as int) == clean_from(tv, i + 1));
            }
        }
        i += 1;
    }
    proof {
        assert(views_of(out@) + clean_from(tv, n as int) =~= views_of(out@));
        assert(views_of(out@) == spec_extract_blocks(html@));
    }
    out
}

proof fn lemma_clean_from_remove_after(texts: Seq<Seq<char>>, i: int, j: int)
    requires
        0 <= i < j <= texts.len(),
    ensures
        clean_from(texts, j) == clean_from(texts.remove(i), j - 1),
    decreases texts.len() - j,
{
    if j == texts.len() {
    } else {
        assert(texts.remove(i)[j - 1] == texts[j]);
        lemma_clean_from_remove_after(texts, i, j + 1);
    }
}

proof fn lemma_clean_from_remove_empty(texts: Seq<Seq<char>>, i: int, j: int)
    requires
        0 <= j <= i < texts.len(),
        normalized(texts[i]).len() == 0,
    ensures
        clean_from(texts, j) == clean_from(texts.remove(i), j),
    decreases i - j,
{
    if j == i {
        lemma_clean_from_remove_after(texts, i, i + 1);
        assert(clean_from(texts, i) == clean_from(texts, i + 1));
    } else {
        assert(texts.remove(i)[j] == texts[j]);
        lemma_clean_from_remove_empty(texts, i, j + 1);
    }
}

/// An element whose text is whitespace-only contributes no block: the
/// blocks of the document are those of the document without it.
pub proof fn lemma_whitespace_element_excluded(texts: Seq<Seq<char>>, i: int)
    requires
        0 <= i < texts.len(),
        forall|k: int| 0 <= k < texts[i].len() ==> is_space(texts[i][k]),
    ensures
        clean_blocks(texts) == clean_blocks(texts.remove(i)),
{
    crate::text::lemma_whitespace_only_normalizes_empty(texts[i]);
    lemma_clean_from_remove_empty(texts, i, 0);
}

} // verus!
