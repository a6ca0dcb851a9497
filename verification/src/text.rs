//! Character-level text handling for protocol lines: whitespace as Rust's
//! `char::is_whitespace` sees it, words, trimming, field splitting and
//! substring search, all over the `Seq<char>` view of a string.
use vstd::prelude::*;
use vstd::utf8::{decode_utf8, valid_utf8};

verus! {

broadcast use vstd::string::group_string_axioms;

/// The Unicode `White_Space` property, which `char::is_whitespace` tests:
/// U+0009..=U+000D, U+0020, U+0085, U+00A0, U+1680, U+2000..=U+200A,
/// U+2028, U+2029, U+202F, U+205F and U+3000.
pub open spec fn is_space(c: char) -> bool {
    let u = c as u32;
    ||| 0x09 <= u <= 0x0d
    ||| u == 0x20
    ||| u == 0x85
    ||| u == 0xa0
    ||| u == 0x1680
    ||| 0x2000 <= u <= 0x200a
    ||| u == 0x2028
    ||| u == 0x2029
    ||| u == 0x202f
    ||| u == 0x205f
    ||| u == 0x3000
}

/// Number of leading characters of `s` before its first whitespace character.
pub open spec fn word_len(s: Seq<char>) -> nat
    decreases s.len(),
{
    if s.len() == 0 || is_space(s[0]) {
        0
    } else {
        1 + word_len(s.drop_first())
    }
}

/// `s` without its leading whitespace (`str::trim_start`).
pub open spec fn trim_start(s: Seq<char>) -> Seq<char>
    decreases s.len(),
{
    if s.len() > 0 && is_space(s[0]) {
        trim_start(s.drop_first())
    } else {
        s
    }
}

/// The whitespace-separated words of `s`, in order (`str::split_whitespace`).
pub open spec fn fields(s: Seq<char>) -> Seq<Seq<char>>
    decreases s.len(),
{
    let t = trim_start(s);
    if t.len() == 0 {
        Seq::empty()
    } else {
        proof {
            lemma_trim_start(s);
            lemma_word_len(t);
        }
        let w = word_len(t) as int;
        seq![t.take(w)] + fields(t.skip(w))
    }
}

/// `needle` occurs in `hay` starting at index `i`.
pub open spec fn occurs_at(hay: Seq<char>, needle: Seq<char>, i: int) -> bool {
    &&& 0 <= i
    &&& i + needle.len() <= hay.len()
    &&& hay.subrange(i, i + needle.len()) == needle
}

/// `needle` occurs somewhere in `hay` (`str::contains` with a string pattern).
pub open spec fn contains_chars(hay: Seq<char>, needle: Seq<char>) -> bool {
    exists|i: int| occurs_at(hay, needle, i)
}

/// What `trim_start` leaves is a suffix of its argument that starts with a
/// non-whitespace character, if it is not empty.
pub proof fn lemma_trim_start(s: Seq<char>)
    ensures
        trim_start(s).len() <= s.len(),
        trim_start(s) =~= s.skip(s.len() - trim_start(s).len()),
        trim_start(s).len() > 0 ==> !is_space(trim_start(s)[0]),
        forall|j: int| 0 <= j < s.len() - trim_start(s).len() ==> is_space(#[trigger] s[j]),
    decreases s.len(),
{
    if s.len() > 0 && is_space(s[0]) {
        lemma_trim_start(s.drop_first());
        let t = trim_start(s.drop_first());
        assert forall|j: int| 0 <= j < s.len() - trim_start(s).len() implies is_space(
            #[trigger] s[j],
        ) by {
            if j > 0 {
                assert(s[j] == s.drop_first()[j - 1]);
            }
        }
    }
}

/// `word_len` counts exactly the leading run of non-whitespace characters.
pub proof fn lemma_word_len(s: Seq<char>)
    ensures
        word_len(s) <= s.len(),
        forall|j: int| 0 <= j < word_len(s) ==> !is_space(#[trigger] s[j]),
        word_len(s) < s.len() ==> is_space(s[word_len(s) as int]),
        s.len() > 0 && !is_space(s[0]) ==> word_len(s) > 0,
    decreases s.len(),
{
    if s.len() > 0 && !is_space(s[0]) {
        lemma_word_len(s.drop_first());
        assert forall|j: int| 0 <= j < word_len(s) implies !is_space(#[trigger] s[j]) by {
            if j > 0 {
                assert(s[j] == s.drop_first()[j - 1]);
            }
        }
    }
}

/// Exactly what `char::is_whitespace` returns.
pub fn is_whitespace(c: char) -> (b: bool)
    ensures
        b == is_space(c),
{
    let u = c as u32;
    (0x09 <= u && u <= 0x0d) || u == 0x20 || u == 0x85 || u == 0xa0 || u == 0x1680 || (0x2000
        <= u && u <= 0x200a) || u == 0x2028 || u == 0x2029 || u == 0x202f || u == 0x205f || u
        == 0x3000
}

/// Calls `std::str::from_utf8` and keeps the string it gives back. Claimed,
/// as its documentation states: it succeeds exactly when the bytes are
/// well-formed UTF-8, and the string then holds the characters that the bytes
/// encode. The `Utf8Error` it gives on failure is dropped.
#[verifier::external_body]
pub(crate) fn str_from_utf8(bytes: &[u8]) -> (r: Option<&str>)
    ensures
        r is Some <==> valid_utf8(bytes@),
        r matches Some(s) ==> s@ == decode_utf8(bytes@),
{
    std::str::from_utf8(bytes).ok()
}

/// The characters of a string slice, one element per Unicode scalar value.
pub fn chars_of(s: &str) -> (out: Vec<char>)
    ensures
        out@ == s@,
{
    let mut out: Vec<char> = Vec::new();
    for c in it: s.chars()
        invariant
            out@ == it.seq().take(it.index() as int),
    {
        out.push(c);
    }
    out
}

/// The index at which the word starting at `from` ends: the first whitespace
/// character at or after `from`, or the end of `chars`.
pub fn word_end(chars: &Vec<char>, from: usize) -> (end: usize)
    requires
        from <= chars@.len(),
    ensures
        from <= end <= chars@.len(),
        end - from == word_len(chars@.skip(from as int)),
{
    let mut i = from;
    while i < chars.len() && !is_whitespace(chars[i])
        invariant
            from <= i <= chars@.len(),
            word_len(chars@.skip(from as int)) == (i - from) + word_len(chars@.skip(i as int)),
        decreases chars@.len() - i,
    {
        assert(chars@.skip(i as int).drop_first() =~= chars@.skip(i + 1));
        i += 1;
    }
    i
}

/// The index of the first non-whitespace character at or after `from`, or the
/// end of `chars`.
pub fn skip_spaces(chars: &Vec<char>, from: usize) -> (next: usize)
    requires
        from <= chars@.len(),
    ensures
        from <= next <= chars@.len(),
        chars@.skip(next as int) == trim_start(chars@.skip(from as int)),
{
    let mut i = from;
    while i < chars.len() && is_whitespace(chars[i])
        invariant
            from <= i <= chars@.len(),
            trim_start(chars@.skip(from as int)) == trim_start(chars@.skip(i as int)),
        decreases chars@.len() - i,
    {
        assert(chars@.skip(i as int).drop_first() =~= chars@.skip(i + 1));
        i += 1;
    }
    i
}

/// The pieces of `s` that the index pairs in `bounds` delimit, in order.
pub open spec fn pieces(s: Seq<char>, bounds: Seq<(usize, usize)>) -> Seq<Seq<char>> {
    Seq::new(bounds.len(), |k: int| s.subrange(bounds[k].0 as int, bounds[k].1 as int))
}

/// The start and end index of each whitespace-separated word of `chars`
/// from index `from` on.
pub fn field_bounds(chars: &Vec<char>, from: usize) -> (bounds: Vec<(usize, usize)>)
    requires
        from <= chars@.len(),
    ensures
        forall|k: int|
            0 <= k < bounds@.len() ==> #[trigger] bounds@[k].0 <= bounds@[k].1 <= chars@.len(),
        pieces(chars@, bounds@) == fields(chars@.skip(from as int)),
{
    let mut bounds: Vec<(usize, usize)> = Vec::new();
    let mut p = from;
    loop
        invariant
            from <= p <= chars@.len(),
            forall|k: int|
                0 <= k < bounds@.len() ==> #[trigger] bounds@[k].0 <= bounds@[k].1
                    <= chars@.len(),
            fields(chars@.skip(from as int)) == pieces(chars@, bounds@) + fields(
                chars@.skip(p as int),
            ),
        decreases chars@.len() - p,
    {
        let q = skip_spaces(chars, p);
        if q == chars.len() {
            assert(chars@.skip(q as int).len() == 0);
            assert(fields(chars@.skip(p as int)) =~= Seq::<Seq<char>>::empty());
            assert(pieces(chars@, bounds@) + fields(chars@.skip(p as int)) =~= pieces(
                chars@,
                bounds@,
            ));
            return bounds;
        }
        let e = word_end(chars, q);
        proof {
            let s = chars@.skip(p as int);
            let t = chars@.skip(q as int);
            lemma_trim_start(s);
            lemma_word_len(t);
            assert(t[0] == chars@[q as int]);
            assert(t.take((e - q) as int) =~= chars@.subrange(q as int, e as int));
            assert(t.skip((e - q) as int) =~= chars@.skip(e as int));
            assert(fields(s) == seq![chars@.subrange(q as int, e as int)] + fields(
                chars@.skip(e as int),
            ));
            assert(pieces(chars@, bounds@.push((q, e))) =~= pieces(chars@, bounds@).push(
                chars@.subrange(q as int, e as int),
            ));
            assert(pieces(chars@, bounds@) + fields(s) =~= pieces(chars@, bounds@.push((q, e)))
                + fields(chars@.skip(e as int)));
        }
        bounds.push((q, e));
        p = e;
    }
}

/// Whether `chars[from..to]` equals `lit`.
pub fn segment_eq(chars: &Vec<char>, from: usize, to: usize, lit: &Vec<char>) -> (b: bool)
    requires
        from <= to <= chars@.len(),
    ensures
        b == (chars@.subrange(from as int, to as int) == lit@),
{
    if to - from != lit.len() {
        return false;
    }
    let mut k: usize = 0;
    while k < lit.len()
        invariant
            to - from == lit@.len(),
            from <= to <= chars@.len(),
            0 <= k <= lit@.len(),
            forall|j: int| 0 <= j < k ==> chars@[from + j] == lit@[j],
        decreases lit@.len() - k,
    {
        if chars[from + k] != lit[k] {
            assert(chars@.subrange(from as int, to as int)[k as int] != lit@[k as int]);
            return false;
        }
        k += 1;
    }
    assert(chars@.subrange(from as int, to as int) =~= lit@);
    true
}

/// Whether `needle` occurs in `chars[from..]`.
pub fn contains_from(chars: &Vec<char>, from: usize, needle: &Vec<char>) -> (b: bool)
    requires
        from <= chars@.len(),
    ensures
        b == contains_chars(chars@.skip(from as int), needle@),
{
    let ghost hay = chars@.skip(from as int);
    let n = needle.len();
    if chars.len() - from < n {
        assert forall|i: int| !occurs_at(hay, needle@, i) by {}
        return false;
    }
    if n == 0 {
        assert(hay.subrange(0, 0) =~= needle@);
        assert(occurs_at(hay, needle@, 0));
        return true;
    }
    let last = chars.len() - n;
    let mut i = from;
    while i <= last
        invariant
            from <= i <= last + 1,
            last + n == chars@.len(),
            chars@.len() <= usize::MAX,
            1 <= n == needle@.len(),
            hay == chars@.skip(from as int),
            forall|j: int| 0 <= j < i - from ==> !occurs_at(hay, needle@, j),
        decreases last + 1 - i,
    {
        if segment_eq(chars, i, i + n, needle) {
            assert(hay.subrange(i - from, i - from + n) =~= chars@.subrange(
                i as int,
                i + n,
            ));
            assert(occurs_at(hay, needle@, i - from));
            return true;
        }
        assert(hay.subrange(i - from, i - from + n) =~= chars@.subrange(i as int, i + n));
        i += 1;
    }
    assert forall|j: int| !occurs_at(hay, needle@, j) by {
        if 0 <= j && j + n <= hay.len() {
            assert(j < i - from);
        }
    }
    false
}

} // verus!
