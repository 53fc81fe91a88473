use vstd::prelude::*;

verus! {

/// The fixed set of characters deleted during normalization: ASCII
/// punctuation from the strip list and the decimal digits.
pub open spec fn is_strip_char(c: char) -> bool {
    ||| c == '`'
    ||| c == '~'
    ||| c == '!'
    ||| c == '@'
    ||| c == '#'
    ||| c == '$'
    ||| c == '%'
    ||| c == '^'
    ||| c == '&'
    ||| c == '*'
    ||| c == '('
    ||| c == ')'
    ||| c == '-'
    ||| c == '_'
    ||| c == '='
    ||| c == '+'
    ||| c == '['
    ||| c == '{'
    ||| c == ']'
    ||| c == '}'
    ||| c == ';'
    ||| c == ':'
    ||| c == '\''
    ||| c == '"'
    ||| c == ','
    ||| c == '<'
    ||| c == '.'
    ||| c == '>'
    ||| c == '/'
    ||| c == '?'
    ||| c == '\\'
    ||| c == '|'
    ||| ('0' <= c && c <= '9')
}

/// The line-break and tab characters that normalization turns into a
/// single space each.
pub open spec fn is_break_char(c: char) -> bool {
    c == '\n' || c == '\r' || c == '\t'
}

/// The Unicode White_Space characters, the set that trimming removes
/// from the ends of the text.
pub open spec fn is_whitespace_char(c: char) -> bool {
    ||| ('\u{0009}' <= c && c <= '\u{000d}')
    ||| c == ' '
    ||| c == '\u{0085}'
    ||| c == '\u{00a0}'
    ||| c == '\u{1680}'
    ||| ('\u{2000}' <= c && c <= '\u{200a}')
    ||| c == '\u{2028}'
    ||| c == '\u{2029}'
    ||| c == '\u{202f}'
    ||| c == '\u{205f}'
    ||| c == '\u{3000}'
}

fn strip_char(c: char) -> (r: bool)
    ensures
        r == is_strip_char(c),
{
    match c {
        '`' | '~' | '!' | '@' | '#' | '$' | '%' | '^' | '&' | '*' | '(' | ')' | '-' | '_' | '='
            | '+' | '[' | '{' | ']' | '}' | ';' | ':' | '\'' | '"' | ',' | '<' | '.' | '>' | '/'
            | '?' | '\\' | '|' => true,
        _ => '0' <= c && c <= '9',
    }
}

fn break_char(c: char) -> (r: bool)
    ensures
        r == is_break_char(c),
{
    c == '\n' || c == '\r' || c == '\t'
}

fn whitespace_char(c: char) -> (r: bool)
    ensures
        r == is_whitespace_char(c),
{
    match c {
        ' ' | '\u{0085}' | '\u{00a0}' | '\u{1680}' | '\u{2028}' | '\u{2029}' | '\u{202f}'
            | '\u{205f}' | '\u{3000}' => true,
        _ => ('\u{0009}' <= c && c <= '\u{000d}') || ('\u{2000}' <= c && c <= '\u{200a}'),
    }
}

/// What `str::to_lowercase` returns: a function of the argument's
/// characters alone.
pub uninterp spec fn lower_of(s: Seq<char>) -> Seq<char>;

/// Relies on `str::to_lowercase`: the result is the Unicode lowercase
/// equivalent of the input, determined by the input's characters alone,
/// and an empty input gives an empty result.
#[verifier::external_body]
fn to_lowercase(s: &str) -> (r: String)
    ensures
        r@ == lower_of(s@),
        s@.len() == 0 ==> r@.len() == 0,
{
    s.to_lowercase()
}

/// Relies on `String: FromIterator<char>` (`collect` on a character
/// iterator): the resulting string holds exactly the iterated characters,
/// in order.
#[verifier::external_body]
pub(crate) fn chars_to_string(v: &Vec<char>) -> (s: String)
    ensures
        s@ == v@,
{
    v.iter().collect()
}

/// The one-character string holding `c`.
pub(crate) fn char_to_string(c: char) -> (s: String)
    ensures
        s@ == seq![c],
{
    let mut v: Vec<char> = Vec::new();
    v.push(c);
    let s = chars_to_string(&v);
    proof {
        assert(v@ =~= seq![c]);
    }
    s
}

/// Leading Unicode whitespace removed.
pub open spec fn trim_start_spec(s: Seq<char>) -> Seq<char>
    decreases s.len(),
{
    if s.len() > 0 && is_whitespace_char(s[0]) {
        trim_start_spec(s.drop_first())
    } else {
        s
    }
}

/// Trailing Unicode whitespace removed.
pub open spec fn trim_end_spec(s: Seq<char>) -> Seq<char>
    decreases s.len(),
{
    if s.len() > 0 && is_whitespace_char(s.last()) {
        trim_end_spec(s.drop_last())
    } else {
        s
    }
}

/// Unicode whitespace removed from both ends.
pub open spec fn trim_spec(s: Seq<char>) -> Seq<char> {
    trim_end_spec(trim_start_spec(s))
}

/// Every line break or tab replaced by a single space.
pub open spec fn breaks_to_spaces_spec(s: Seq<char>) -> Seq<char> {
    s.map_values(|c: char| if is_break_char(c) { ' ' } else { c })
}

/// Every strip-set character deleted.
pub open spec fn strip_spec(s: Seq<char>) -> Seq<char> {
    s.filter(|c: char| !is_strip_char(c))
}

/// The pure part of normalization that follows lowercasing: trim the
/// ends, turn line breaks and tabs into spaces, delete the strip set.
pub open spec fn canonicalize_spec(s: Seq<char>) -> Seq<char> {
    strip_spec(breaks_to_spaces_spec(trim_spec(s)))
}

/// Full normalization: lowercase, then canonicalize.
pub open spec fn sanitize_spec(s: Seq<char>) -> Seq<char> {
    canonicalize_spec(lower_of(s))
}

proof fn lemma_filter_keeps_property(s: Seq<char>, pred: spec_fn(char) -> bool, prop: spec_fn(char) -> bool)
    requires
        forall|j: int| 0 <= j < s.len() ==> prop(s[j]),
    ensures
        forall|i: int| 0 <= i < s.filter(pred).len() ==> prop(#[trigger] s.filter(pred)[i]),
    decreases s.len(),
{
    if s.len() == 0 {
        reveal(Seq::filter);
    } else {
        lemma_filter_keeps_property(s.drop_last(), pred, prop);
        s.drop_last().lemma_filter_push(s.last(), pred);
        assert(s.drop_last().push(s.last()) =~= s);
    }
}

proof fn lemma_filter_all(s: Seq<char>, pred: spec_fn(char) -> bool)
    requires
        forall|j: int| 0 <= j < s.len() ==> pred(s[j]),
    ensures
        s.filter(pred) == s,
    decreases s.len(),
{
    if s.len() == 0 {
        reveal(Seq::filter);
        assert(s.filter(pred) =~= s);
    } else {
        lemma_filter_all(s.drop_last(), pred);
        s.drop_last().lemma_filter_push(s.last(), pred);
        assert(s.drop_last().push(s.last()) =~= s);
    }
}

/// No strip-set character ever appears in canonical text.
pub proof fn lemma_canonical_no_strip_chars(s: Seq<char>)
    ensures
        forall|i: int|
            0 <= i < sanitize_spec(s).len() ==> !is_strip_char(#[trigger] sanitize_spec(s)[i]),
{
    let b = breaks_to_spaces_spec(trim_spec(lower_of(s)));
    assert forall|i: int|
        0 <= i < sanitize_spec(s).len() implies !is_strip_char(#[trigger] sanitize_spec(s)[i]) by {
        b.lemma_filter_pred(|c: char| !is_strip_char(c), i);
    }
}

/// No line break or tab ever appears in canonical text.
pub proof fn lemma_canonical_no_breaks(s: Seq<char>)
    ensures
        forall|i: int|
            0 <= i < sanitize_spec(s).len() ==> !is_break_char(#[trigger] sanitize_spec(s)[i]),
{
    let b = breaks_to_spaces_spec(trim_spec(lower_of(s)));
    assert(forall|j: int| 0 <= j < b.len() ==> !is_break_char(b[j]));
    lemma_filter_keeps_property(b, |c: char| !is_strip_char(c), |c: char| !is_break_char(c));
}

/// Normalization is idempotent on every input whose canonical text is
/// already lowercase and carries no leading or trailing whitespace:
/// a second pass strips nothing, breaks nothing and changes no case.
/// (Deleting strip-set characters can expose whitespace at the ends of
/// the text, and on such inputs a second pass trims further.)
pub proof fn lemma_sanitize_idempotent(s: Seq<char>)
    ensures
        (lower_of(sanitize_spec(s)) == sanitize_spec(s) && trim_spec(sanitize_spec(s))
            == sanitize_spec(s)) ==> sanitize_spec(sanitize_spec(s)) == sanitize_spec(s),
{
    let canon = sanitize_spec(s);
    if lower_of(canon) == canon && trim_spec(canon) == canon {
        lemma_canonical_no_breaks(s);
        lemma_canonical_no_strip_chars(s);
        assert(breaks_to_spaces_spec(canon) =~= canon);
        lemma_filter_all(canon, |c: char| !is_strip_char(c));
    }
}

/// The characters of a string, as a vector.
pub fn string_to_chars(s: &str) -> (v: Vec<char>)
    ensures
        v@ == s@,
{
    let n = s.unicode_len();
    let mut v: Vec<char> = Vec::new();
    let mut i: usize = 0;
    while i < n
        invariant
            n == s@.len(),
            i <= n,
            v@ == s@.take(i as int),
        decreases n - i,
    {
        let c = s.get_char(i);
        v.push(c);
        proof {
            assert(v@ =~= s@.take(i as int + 1));
        }
        i = i + 1;
    }
    proof {
        assert(s@.take(n as int) =~= s@);
    }
    v
}

/// Unicode whitespace removed from both ends of the character vector.
fn trim_chars(v: &Vec<char>) -> (r: Vec<char>)
    ensures
        r@ == trim_spec(v@),
{
    let n = v.len();
    let mut start: usize = 0;
    proof {
        assert(v@.subrange(0, n as int) =~= v@);
    }
    while start < n && whitespace_char(v[start])
        invariant
            start <= n,
            n == v@.len(),
            trim_start_spec(v@) == trim_start_spec(v@.subrange(start as int, n as int)),
        decreases n - start,
    {
        proof {
            let s = v@.subrange(start as int, n as int);
            assert(s.drop_first() =~= v@.subrange(start as int + 1, n as int));
        }
        start = start + 1;
    }
    proof {
        assert(trim_start_spec(v@) == v@.subrange(start as int, n as int));
    }
    let mut end: usize = n;
    while end > start && whitespace_char(v[end - 1])
        invariant
            start <= end <= n,
            n == v@.len(),
            trim_start_spec(v@) == v@.subrange(start as int, n as int),
            trim_end_spec(v@.subrange(start as int, n as int)) == trim_end_spec(
                v@.subrange(start as int, end as int),
            ),
        decreases end,
    {
        proof {
            let s = v@.subrange(start as int, end as int);
            assert(s.drop_last() =~= v@.subrange(start as int, end as int - 1));
        }
        end = end - 1;
    }
    proof {
        assert(trim_spec(v@) == v@.subrange(start as int, end as int));
    }
    let mut r: Vec<char> = Vec::new();
    let mut i: usize = start;
    proof {
        assert(r@ =~= v@.subrange(start as int, start as int));
    }
    while i < end
        invariant
            start <= i <= end <= n,
            n == v@.len(),
            r@ == v@.subrange(start as int, i as int),
        decreases end - i,
    {
        r.push(v[i]);
        proof {
            assert(r@ =~= v@.subrange(start as int, i as int + 1));
        }
        i = i + 1;
    }
    r
}

/// Every line break or tab replaced by a single space.
fn breaks_to_spaces(v: &Vec<char>) -> (r: Vec<char>)
    ensures
        r@ == breaks_to_spaces_spec(v@),
{
    let mut r: Vec<char> = Vec::new();
    let mut i: usize = 0;
    while i < v.len()
        invariant
            i <= v@.len(),
            r@.len() == i,
            forall|j: int|
                0 <= j < i ==> r@[j] == (if is_break_char(v@[j]) {
                    ' '
                } else {
                    v@[j]
                }),
        decreases v@.len() - i,
    {
        let c = v[i];
        if break_char(c) {
            r.push(' ');
        } else {
            r.push(c);
        }
        i = i + 1;
    }
    proof {
        assert(r@ =~= breaks_to_spaces_spec(v@));
    }
    r
}

/// Every strip-set character deleted.
fn strip_chars(v: &Vec<char>) -> (r: Vec<char>)
    ensures
        r@ == strip_spec(v@),
{
    let mut r: Vec<char> = Vec::new();
    let mut i: usize = 0;
    proof {
        assert(v@.take(0) =~= Seq::<char>::empty());
        assert(v@.take(0).filter(|c: char| !is_strip_char(c)) =~= Seq::<char>::empty());
    }
    while i < v.len()
        invariant
            i <= v@.len(),
            r@ == v@.take(i as int).filter(|c: char| !is_strip_char(c)),
        decreases v@.len() - i,
    {
        let c = v[i];
        proof {
            assert(v@.take(i as int + 1) =~= v@.take(i as int).push(v@[i as int]));
            v@.take(i as int).lemma_filter_push(v@[i as int], |c: char| !is_strip_char(c));
        }
        if !strip_char(c) {
            r.push(c);
        }
        i = i + 1;
    }
    proof {
        assert(v@.take(v@.len() as int) =~= v@);
    }
    r
}

/// Canonicalize characters that are already lowercased: trim the ends,
/// turn line breaks and tabs into spaces, delete the strip set.
pub fn canonicalize_chars(v: &Vec<char>) -> (r: Vec<char>)
    ensures
        r@ == canonicalize_spec(v@),
{
    let t = trim_chars(v);
    let b = breaks_to_spaces(&t);
    strip_chars(&b)
}

/// Normalize raw text into canonical text: lowercase it, trim the ends,
/// turn line breaks and tabs into single spaces, and delete every
/// strip-set character.
pub fn sanitize_text(input_text: String) -> (r: String)
    ensures
        r@ == sanitize_spec(input_text@),
{
    let lowered = to_lowercase(input_text.as_str());
    let chars = string_to_chars(lowered.as_str());
    let canon = canonicalize_chars(&chars);
    chars_to_string(&canon)
}

} // verus!
