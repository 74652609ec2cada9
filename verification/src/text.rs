use vstd::prelude::*;

verus! {

/// View of each string in a sequence of strings.
pub open spec fn views_of(v: Seq<String>) -> Seq<Seq<char>> {
    v.map_values(|s: String| s@)
}

/// The characters of a string slice, as a vector.
pub fn str_chars(s: &str) -> (r: Vec<char>)
    ensures
        r@ == s@,
{
    let n = s.unicode_len();
    let mut r: Vec<char> = Vec::new();
    let mut i: usize = 0;
    while i < n
        invariant
            n == s@.len(),
            i <= n,
            r@ == s@.take(i as int),
        decreases n - i,
    {
        let c = s.get_char(i);
        r.push(c);
        proof {
            assert(r@ =~= s@.take(i + 1));
        }
        i += 1;
    }
    proof {
        assert(r@ =~= s@);
    }
    r
}

/// Relies on String's FromIterator impl over char: collecting characters
/// builds the string of exactly those characters, in order.
#[verifier::external_body]
pub(crate) fn chars_to_string(v: &Vec<char>) -> (r: String)
    ensures
        r@ == v@,
{
    v.iter().collect()
}

/// Unicode whitespace: the characters char::is_whitespace recognizes.
pub open spec fn is_space(c: char) -> bool {
    ||| c == ' '
    ||| c == '\t'
    ||| c == '\n'
    ||| c == '\u{0B}'
    ||| c == '\u{0C}'
    ||| c == '\r'
    ||| c == '\u{85}'
    ||| c == '\u{A0}'
    ||| c == '\u{1680}'
    ||| (0x2000 <= c as u32 && c as u32 <= 0x200A)
    ||| c == '\u{2028}'
    ||| c == '\u{2029}'
    ||| c == '\u{202F}'
    ||| c == '\u{205F}'
    ||| c == '\u{3000}'
}

fn is_space_char(c: char) -> (r: bool)
    ensures
        r == is_space(c),
{
    c == ' ' || c == '\t' || c == '\n' || c == '\u{0B}' || c == '\u{0C}' || c == '\r' || c
        == '\u{85}' || c == '\u{A0}' || c == '\u{1680}' || (0x2000 <= c as u32 && c as u32
        <= 0x200A) || c == '\u{2028}' || c == '\u{2029}' || c == '\u{202F}' || c == '\u{205F}' || c
        == '\u{3000}'
}

/// The text from position i on, with every whitespace run collapsed to a
/// single space; prev_space says whether position i continues a run.
pub open spec fn collapse_from(s: Seq<char>, i: int, prev_space: bool) -> Seq<char>
    decreases s.len() - i,
{
    if i < 0 || i >= s.len() {
        Seq::empty()
    } else if is_space(s[i]) {
        if prev_space {
            collapse_from(s, i + 1, true)
        } else {
            seq![' '] + collapse_from(s, i + 1, true)
        }
    } else {
        seq![s[i]] + collapse_from(s, i + 1, false)
    }
}

pub open spec fn trim_start(s: Seq<char>) -> Seq<char>
    decreases s.len(),
{
    if s.len() == 0 {
        s
    } else if is_space(s[0]) {
        trim_start(s.drop_first())
    } else {
        s
    }
}

pub open spec fn trim_end(s: Seq<char>) -> Seq<char>
    decreases s.len(),
{
    if s.len() == 0 {
        s
    } else if is_space(s.last()) {
        trim_end(s.drop_last())
    } else {
        s
    }
}

/// A block's normalized text: whitespace runs collapsed to single spaces,
/// then leading and trailing whitespace removed.
pub open spec fn normalized(s: Seq<char>) -> Seq<char> {
    trim_end(trim_start(collapse_from(s, 0, false)))
}

proof fn lemma_trim_start_skip(s: Seq<char>, a: int)
    requires
        0 <= a <= s.len(),
        forall|k: int| 0 <= k < a ==> is_space(s[k]),
        a < s.len() ==> !is_space(s[a]),
    ensures
        trim_start(s) == s.skip(a),
    decreases a,
{
    if a == 0 {
        assert(s.skip(0) =~= s);
    } else {
        assert(is_space(s[0]));
        lemma_trim_start_skip(s.drop_first(), a - 1);
        assert(s.drop_first().skip(a - 1) =~= s.skip(a));
    }
}

proof fn lemma_trim_end_take(s: Seq<char>, b: int)
    requires
        0 <= b <= s.len(),
        forall|k: int| b <= k < s.len() ==> is_space(s[k]),
        b > 0 ==> !is_space(s[b - 1]),
    ensures
        trim_end(s) == s.take(b),
    decreases s.len(),
{
    if b == s.len() {
        assert(s.take(b) =~= s);
    } else {
        assert(is_space(s.last()));
        lemma_trim_end_take(s.drop_last(), b);
        assert(s.drop_last().take(b) =~= s.take(b));
    }
}

/// Normalized text of one string: collapse whitespace runs, then trim.
pub fn normalize_text(s: &str) -> (r: String)
    ensures
        r@ == normalized(s@),
{
    let v = str_chars(s);
    let n = v.len();
    let mut cw: Vec<char> = Vec::new();
    let mut prev_space = false;
    let mut i: usize = 0;
    while i < n
        invariant
            n == v@.len(),
            v@ == s@,
            i <= n,
            cw@ + collapse_from(s@, i as int, prev_space) == collapse_from(s@, 0, false),
        decreases n - i,
    {
        let ghost prev_cw = cw@;
        let c = v[i];
        if is_space_char(c) {
            if !prev_space {
                cw.push(' ');
                proof {
                    assert(collapse_from(s@, i as int, false) == seq![' '] + collapse_from(
                        s@,
                        i + 1,
                        true,
                    ));
                    assert(cw@ + collapse_from(s@, i + 1, true) =~= prev_cw + collapse_from(
                        s@,
                        i as int,
                        false,
                    ));
                }
            }
            prev_space = true;
        } else {
            cw.push(c);
            proof {
                assert(collapse_from(s@, i as int, prev_space) == seq![s@[i as int]]
                    + collapse_from(s@, i + 1, false));
                assert(cw@ + collapse_from(s@, i + 1, false) =~= prev_cw + collapse_from(
                    s@,
                    i as int,
                    prev_space,
                ));
            }
            prev_space = false;
        }
        i += 1;
    }
    proof {
        assert(cw@ + collapse_from(s@, n as int, prev_space) =~= cw@);
        assert(cw@ == collapse_from(s@, 0, false));
    }
    let m = cw.len();
    let mut a: usize = 0;
    while a < m && is_space_char(cw[a])
        invariant
            m == cw@.len(),
            a <= m,
            forall|k: int| 0 <= k < a ==> is_space(cw@[k]),
        decreases m - a,
    {
        a += 1;
    }
    let mut b: usize = m;
    while b > a && is_space_char(cw[b - 1])
        invariant
            m == cw@.len(),
            a <= b <= m,
            forall|k: int| b <= k < m ==> is_space(cw@[k]),
        decreases b,
    {
        b -= 1;
    }
    let mut out: Vec<char> = Vec::new();
    let mut k: usize = a;
    while k < b
        invariant
            m == cw@.len(),
            a <= k <= b <= m,
            out@ == cw@.subrange(a as int, k as int),
        decreases b - k,
    {
        out.push(cw[k]);
        proof {
            assert(out@ =~= cw@.subrange(a as int, k + 1));
        }
        k += 1;
    }
    proof {
        lemma_trim_start_skip(cw@, a as int);
        lemma_trim_end_take(cw@.skip(a as int), b - a);
        assert(cw@.skip(a as int).take(b - a) =~= cw@.subrange(a as int, b as int));
        assert(normalized(s@) == cw@.subrange(a as int, b as int));
    }
    chars_to_string(&out)
}

/// A whitespace-only text normalizes to the empty text, so an element
/// holding only whitespace contributes no block.
pub proof fn lemma_whitespace_only_normalizes_empty(t: Seq<char>)
    requires
        forall|k: int| 0 <= k < t.len() ==> is_space(t[k]),
    ensures
        normalized(t).len() == 0,
{
    lemma_collapse_all_space(t, 0, false);
    let cw = collapse_from(t, 0, false);
    if cw =~= Seq::<char>::empty() {
        assert(trim_end(trim_start(cw)).len() == 0);
    } else {
        assert(cw =~= seq![' ']);
        assert(is_space(cw[0]));
        assert(trim_start(cw) == trim_start(cw.drop_first()));
        assert(cw.drop_first() =~= Seq::<char>::empty());
    }
}

proof fn lemma_collapse_all_space(t: Seq<char>, i: int, prev_space: bool)
    requires
        0 <= i,
        forall|k: int| i <= k < t.len() ==> is_space(t[k]),
    ensures
        prev_space ==> collapse_from(t, i, prev_space) =~= Seq::<char>::empty(),
        !prev_space ==> (collapse_from(t, i, prev_space) =~= Seq::<char>::empty()
            || collapse_from(t, i, prev_space) =~= seq![' ']),
    decreases t.len() - i,
{
    if i < t.len() {
        lemma_collapse_all_space(t, i + 1, true);
    }
}

/// Blank-line separator between serialized blocks.
pub open spec fn sep() -> Seq<char> {
    seq!['\n', '\n']
}

pub open spec fn join_from(parts: Seq<Seq<char>>, sepr: Seq<char>, i: int) -> Seq<char>
    decreases parts.len() - i,
{
    if i < 0 || i >= parts.len() {
        Seq::empty()
    } else if i == parts.len() - 1 {
        parts[i]
    } else {
        parts[i] + sepr + join_from(parts, sepr, i + 1)
    }
}

/// Blocks serialized as one text body, joined by blank lines.
pub open spec fn spec_joined(parts: Seq<Seq<char>>) -> Seq<char> {
    join_from(parts, sep(), 0)
}

/// Parts joined by single newlines.
pub open spec fn spec_joined_lines(parts: Seq<Seq<char>>) -> Seq<char> {
    join_from(parts, seq!['\n'], 0)
}

fn join_with(parts: &Vec<String>, sepr: &str) -> (r: String)
    ensures
        r@ == join_from(views_of(parts@), sepr@, 0),
{
    let ghost pv = views_of(parts@);
    let mut out = String::new();
    let n = parts.len();
    let mut i: usize = 0;
    while i < n
        invariant
            n == parts@.len(),
            pv == views_of(parts@),
            pv.len() == n,
            i <= n,
            out@ + join_from(pv, sepr@, i as int) == join_from(pv, sepr@, 0),
        decreases n - i,
    {
        proof {
            assert(pv[i as int] == parts@[i as int]@);
        }
        let ghost prev_out = out@;
        out.append(parts[i].as_str());
        if i + 1 < n {
            out.append(sepr);
            proof {
                assert(join_from(pv, sepr@, i as int) == pv[i as int] + sepr@ + join_from(
                    pv,
                    sepr@,
                    i + 1,
                ));
                assert(out@ + join_from(pv, sepr@, i + 1) =~= prev_out + join_from(
                    pv,
                    sepr@,
                    i as int,
                ));
            }
        } else {
            proof {
                assert(join_from(pv, sepr@, i as int) == pv[i as int]);
                assert(out@ + join_from(pv, sepr@, i + 1) =~= prev_out + join_from(
                    pv,
                    sepr@,
                    i as int,
                ));
            }
        }
        i += 1;
    }
    proof {
        assert(out@ + join_from(pv, sepr@, n as int) =~= out@);
    }
    out
}

/// Serialize blocks as one text body with a blank-line separator.
pub fn join_blocks(parts: &Vec<String>) -> (r: String)
    ensures
        r@ == spec_joined(views_of(parts@)),
{
    proof {
        reveal_strlit("\n\n");
        assert("\n\n"@ =~= sep());
    }
    join_with(parts, "\n\n")
}

/// Serialize parts as one text body with a newline separator.
pub fn join_lines(parts: &Vec<String>) -> (r: String)
    ensures
        r@ == spec_joined_lines(views_of(parts@)),
{
    proof {
        reveal_strlit("\n");
        assert("\n"@ =~= seq!['\n']);
    }
    join_with(parts, "\n")
}

} // verus!
