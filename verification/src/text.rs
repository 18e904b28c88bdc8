//! Character-sequence primitives that the matching rules are built from.
//!
//! Text is handled as sequences of Unicode scalar values. Case and white
//! space are classified by the standard library; for ASCII characters the
//! classification is spelled out here, for all others it is left abstract.

use vstd::prelude::*;

verus! {

/// Whether a character has the Unicode `Uppercase` property.
pub uninterp spec fn unicode_uppercase(c: char) -> bool;

/// Whether a character has the Unicode `Lowercase` property.
pub uninterp spec fn unicode_lowercase(c: char) -> bool;

/// Whether a character has the Unicode `White_Space` property.
pub uninterp spec fn unicode_white_space(c: char) -> bool;

/// The Unicode lowercase mapping of a text.
pub uninterp spec fn unicode_lowercased(s: Seq<char>) -> Seq<char>;

/// `char::is_uppercase` reports the Unicode `Uppercase` property of a
/// character. The property is given a name and not spelled out.
pub assume_specification[ char::is_uppercase ](c: char) -> (b: bool)
    ensures
        b == unicode_uppercase(c),
;

/// `char::is_lowercase` reports the Unicode `Lowercase` property of a
/// character. The property is given a name and not spelled out.
pub assume_specification[ char::is_lowercase ](c: char) -> (b: bool)
    ensures
        b == unicode_lowercase(c),
;

/// `char::is_whitespace` reports the Unicode `White_Space` property of a
/// character. The property is given a name and not spelled out.
pub assume_specification[ char::is_whitespace ](c: char) -> (b: bool)
    ensures
        b == unicode_white_space(c),
;

/// `str::to_lowercase` returns the lowercase equivalent of a text by the
/// Unicode lowercase mapping. The mapping is given a name and not spelled
/// out.
pub assume_specification[ str::to_lowercase ](s: &str) -> (r: String)
    ensures
        r@ == unicode_lowercased(s@),
;

/// `String::push` appends one character.
pub assume_specification[ String::push ](s: &mut String, ch: char)
    ensures
        final(s)@ == old(s)@.push(ch),
;

/// A character of the ASCII range.
pub open spec fn is_ascii_char(c: char) -> bool {
    c <= '\u{7f}'
}

/// A text of ASCII characters only.
pub open spec fn all_ascii(s: Seq<char>) -> bool {
    forall|i: int| 0 <= i < s.len() ==> is_ascii_char(#[trigger] s[i])
}

/// An uppercase letter: `A` to `Z` within ASCII, the Unicode property beyond.
pub open spec fn is_upper(c: char) -> bool {
    if is_ascii_char(c) {
        'A' <= c <= 'Z'
    } else {
        unicode_uppercase(c)
    }
}

/// A lowercase letter: `a` to `z` within ASCII, the Unicode property beyond.
pub open spec fn is_lower(c: char) -> bool {
    if is_ascii_char(c) {
        'a' <= c <= 'z'
    } else {
        unicode_lowercase(c)
    }
}

/// White space: space, tab, line feed, vertical tab, form feed and carriage
/// return within ASCII, the Unicode property beyond.
pub open spec fn is_space(c: char) -> bool {
    if is_ascii_char(c) {
        c == ' ' || ('\t' <= c <= '\r')
    } else {
        unicode_white_space(c)
    }
}

/// The lowercase letter of an ASCII uppercase letter; any other character
/// itself.
pub open spec fn ascii_lower(c: char) -> char {
    if 'A' <= c <= 'Z' {
        ((c as u8) + 32) as u8 as char
    } else {
        c
    }
}

/// The lowercase form of a text: letter by letter within ASCII, the
/// Unicode mapping of the whole text beyond.
pub open spec fn lowercase(s: Seq<char>) -> Seq<char> {
    if all_ascii(s) {
        s.map_values(|c: char| ascii_lower(c))
    } else {
        unicode_lowercased(s)
    }
}

/// Whether a character is an uppercase letter.
pub fn is_upper_char(c: char) -> (b: bool)
    ensures
        b == is_upper(c),
{
    if c <= '\u{7f}' {
        'A' <= c && c <= 'Z'
    } else {
        c.is_uppercase()
    }
}

/// Whether a character is a lowercase letter.
pub fn is_lower_char(c: char) -> (b: bool)
    ensures
        b == is_lower(c),
{
    if c <= '\u{7f}' {
        'a' <= c && c <= 'z'
    } else {
        c.is_lowercase()
    }
}

/// Whether a character is white space.
pub fn is_space_char(c: char) -> (b: bool)
    ensures
        b == is_space(c),
{
    if c <= '\u{7f}' {
        c == ' ' || ('\t' <= c && c <= '\r')
    } else {
        c.is_whitespace()
    }
}

/// The views of the items of a sequence, in order.
pub open spec fn views_of<T: View>(s: Seq<T>) -> Seq<T::V> {
    s.map_values(|x: T| x@)
}

/// The text without its leading white space.
pub open spec fn trim_start(s: Seq<char>) -> Seq<char>
    decreases s.len(),
{
    if s.len() > 0 && is_space(s[0]) {
        trim_start(s.drop_first())
    } else {
        s
    }
}

/// The text without its trailing white space.
pub open spec fn trim_end(s: Seq<char>) -> Seq<char>
    decreases s.len(),
{
    if s.len() > 0 && is_space(s.last()) {
        trim_end(s.drop_last())
    } else {
        s
    }
}

/// The text without leading and trailing white space.
pub open spec fn trim(s: Seq<char>) -> Seq<char> {
    trim_end(trim_start(s))
}

/// A text that neither starts nor ends with white space.
pub open spec fn is_trimmed(t: Seq<char>) -> bool {
    t.len() == 0 || (!is_space(t[0]) && !is_space(t.last()))
}

/// Whether `needle` stands in `hay` at position `i`.
pub open spec fn occurs_at(hay: Seq<char>, needle: Seq<char>, i: int) -> bool {
    0 <= i && i + needle.len() <= hay.len() && hay.subrange(i, i + needle.len()) == needle
}

/// Whether `needle` stands somewhere in `hay`.
pub open spec fn contains_seq(hay: Seq<char>, needle: Seq<char>) -> bool {
    exists|i: int| occurs_at(hay, needle, i)
}

/// Whether `hay` begins with `needle`.
pub open spec fn starts_with(hay: Seq<char>, needle: Seq<char>) -> bool {
    occurs_at(hay, needle, 0)
}

/// Whether `hay` ends with `needle`.
pub open spec fn ends_with(hay: Seq<char>, needle: Seq<char>) -> bool {
    occurs_at(hay, needle, hay.len() - needle.len())
}

/// The first position at or after `from` where `needle` stands in `hay`;
/// `-1` when there is none.
pub open spec fn first_index_from(hay: Seq<char>, needle: Seq<char>, from: int) -> int
    decreases hay.len() - from + 1,
{
    if from < 0 || from + needle.len() > hay.len() {
        -1
    } else if occurs_at(hay, needle, from) {
        from
    } else {
        first_index_from(hay, needle, from + 1)
    }
}

/// The parts in order, with `sep` between each two neighbours.
pub open spec fn join(parts: Seq<Seq<char>>, sep: Seq<char>) -> Seq<char>
    decreases parts.len(),
{
    if parts.len() == 0 {
        Seq::empty()
    } else if parts.len() == 1 {
        parts[0]
    } else {
        join(parts.drop_last(), sep) + sep + parts.last()
    }
}

/// A text of ASCII characters without uppercase letters.
pub open spec fn plain_lower(s: Seq<char>) -> bool {
    forall|i: int| 0 <= i < s.len() ==> is_ascii_char(#[trigger] s[i]) && !('A' <= s[i] <= 'Z')
}

/// The characters of a text, in order.
pub fn to_chars(s: &str) -> (v: Vec<char>)
    ensures
        v@ == s@,
{
    let mut v: Vec<char> = Vec::new();
    for c in it: s.chars()
        invariant
            v@ == it.seq().take(it.index() as int),
            it.seq() == s@,
    {
        v.push(c);
    }
    v
}

/// The text made of the given characters.
pub fn from_chars(v: &Vec<char>) -> (s: String)
    ensures
        s@ == v@,
{
    let mut s = String::new();
    let mut i: usize = 0;
    while i < v.len()
        invariant
            i <= v.len(),
            s@ == v@.take(i as int),
        decreases v.len() - i,
    {
        s.push(v[i]);
        i += 1;
    }
    s
}

/// Lowercases a text.
pub fn lowercase_chars(v: &Vec<char>) -> (r: Vec<char>)
    ensures
        r@ == lowercase(v@),
{
    let mut r: Vec<char> = Vec::new();
    let mut i: usize = 0;
    while i < v.len() && v[i] <= '\u{7f}'
        invariant
            i <= v.len(),
            all_ascii(v@.take(i as int)),
            r@ == v@.take(i as int).map_values(|c: char| ascii_lower(c)),
        decreases v.len() - i,
    {
        let c = v[i];
        let low = if 'A' <= c && c <= 'Z' {
            ((c as u8) + 32) as char
        } else {
            c
        };
        r.push(low);
        proof {
            assert(low == ascii_lower(c));
            assert(v@.take(i + 1) =~= v@.take(i as int).push(c));
            assert(r@ =~= v@.take(i + 1).map_values(|c: char| ascii_lower(c)));
        }
        i += 1;
    }
    if i == v.len() {
        proof {
            assert(v@.take(i as int) =~= v@);
        }
        r
    } else {
        proof {
            assert(!is_ascii_char(v@[i as int]));
        }
        let s = from_chars(v);
        let low = s.as_str().to_lowercase();
        to_chars(low.as_str())
    }
}

/// The characters of `v` from position `from` up to, not including, `to`.
pub fn slice_chars(v: &Vec<char>, from: usize, to: usize) -> (r: Vec<char>)
    requires
        from <= to <= v.len(),
    ensures
        r@ == v@.subrange(from as int, to as int),
{
    let mut r: Vec<char> = Vec::new();
    let mut i: usize = from;
    while i < to
        invariant
            from <= i <= to <= v.len(),
            r@ == v@.subrange(from as int, i as int),
        decreases to - i,
    {
        r.push(v[i]);
        i += 1;
    }
    r
}

/// Appends the characters of `src` to `dst`.
pub fn extend_chars(dst: &mut Vec<char>, src: &Vec<char>)
    ensures
        final(dst)@ == old(dst)@ + src@,
{
    let mut i: usize = 0;
    while i < src.len()
        invariant
            i <= src.len(),
            dst@ == old(dst)@ + src@.take(i as int),
        decreases src.len() - i,
    {
        dst.push(src[i]);
        proof {
            assert(dst@ =~= old(dst)@ + src@.take(i + 1));
        }
        i += 1;
    }
    proof {
        assert(src@.take(src.len() as int) =~= src@);
    }
}

/// Removes leading and trailing white space.
pub fn trim_chars(v: &Vec<char>) -> (r: Vec<char>)
    ensures
        r@ == trim(v@),
{
    let n = v.len();
    let mut start: usize = 0;
    proof {
        assert(v@.skip(0) =~= v@);
    }
    while start < n && is_space_char(v[start])
        invariant
            start <= n == v.len(),
            trim_start(v@) == trim_start(v@.skip(start as int)),
        decreases n - start,
    {
        proof {
            assert(v@.skip(start as int).drop_first() =~= v@.skip(start + 1));
        }
        start += 1;
    }
    proof {
        assert(v@.skip(n as int) =~= Seq::<char>::empty());
        assert(trim_start(v@) == v@.skip(start as int));
        assert(v@.skip(start as int) =~= v@.subrange(start as int, n as int));
    }
    let mut end: usize = n;
    while end > start && is_space_char(v[end - 1])
        invariant
            start <= end <= n == v.len(),
            trim(v@) == trim_end(v@.subrange(start as int, end as int)),
        decreases end,
    {
        proof {
            assert(v@.subrange(start as int, end as int).drop_last() =~= v@.subrange(
                start as int,
                end - 1,
            ));
        }
        end -= 1;
    }
    slice_chars(v, start, end)
}

/// Tests whether `needle` stands in `hay` at position `i`.
pub fn matches_at(hay: &Vec<char>, needle: &Vec<char>, i: usize) -> (b: bool)
    ensures
        b == occurs_at(hay@, needle@, i as int),
{
    let m = needle.len();
    if i > hay.len() || m > hay.len() - i {
        return false;
    }
    let mut k: usize = 0;
    while k < m
        invariant
            k <= m == needle.len(),
            i + m <= hay.len(),
            forall|j: int| 0 <= j < k ==> hay@[i + j] == needle@[j],
        decreases m - k,
    {
        if hay[i + k] != needle[k] {
            proof {
                assert(hay@.subrange(i as int, i + m)[k as int] == hay@[i + k]);
            }
            return false;
        }
        k += 1;
    }
    proof {
        assert(hay@.subrange(i as int, i + m) =~= needle@);
    }
    true
}

/// Compares two texts character by character.
pub fn chars_equal(a: &Vec<char>, b: &Vec<char>) -> (r: bool)
    ensures
        r == (a@ == b@),
{
    if a.len() != b.len() {
        return false;
    }
    let r = matches_at(a, b, 0);
    proof {
        assert(a@.subrange(0, a@.len() as int) =~= a@);
    }
    r
}


/// Tests whether `hay` begins with `needle`.
pub fn chars_start_with(hay: &Vec<char>, needle: &Vec<char>) -> (b: bool)
    ensures
        b == starts_with(hay@, needle@),
{
    matches_at(hay, needle, 0)
}

/// Tests whether `hay` ends with `needle`.
pub fn chars_end_with(hay: &Vec<char>, needle: &Vec<char>) -> (b: bool)
    ensures
        b == ends_with(hay@, needle@),
{
    if needle.len() > hay.len() {
        false
    } else {
        matches_at(hay, needle, hay.len() - needle.len())
    }
}

/// Searches for the first position at or after `from` where `needle` stands
/// in `hay`.
pub fn find_from(hay: &Vec<char>, needle: &Vec<char>, from: usize) -> (r: Option<usize>)
    ensures
        match r {
            Some(i) => i == first_index_from(hay@, needle@, from as int),
            None => first_index_from(hay@, needle@, from as int) == -1,
        },
        match r {
            Some(i) => from <= i && occurs_at(hay@, needle@, i as int) && forall|j: int|
                from <= j < i ==> !occurs_at(hay@, needle@, j),
            None => forall|j: int| from <= j ==> !occurs_at(hay@, needle@, j),
        },
{
    proof {
        lemma_first_index_from(hay@, needle@, from as int);
    }
    let n = hay.len();
    if from > n {
        return None;
    }
    let mut i: usize = from;
    while i < n
        invariant
            from <= i <= n,
            n == hay.len(),
            first_index_from(hay@, needle@, from as int) == first_index_from(
                hay@,
                needle@,
                i as int,
            ),
        decreases n - i,
    {
        if matches_at(hay, needle, i) {
            proof {
                lemma_first_index_from(hay@, needle@, from as int);
            }
            return Some(i);
        }
        i += 1;
    }
    proof {
        lemma_first_index_from(hay@, needle@, from as int);
        assert(first_index_from(hay@, needle@, n + 1) == -1);
    }
    if matches_at(hay, needle, n) {
        Some(n)
    } else {
        None
    }
}

/// Tests whether `needle` stands somewhere in `hay`.
pub fn chars_contain(hay: &Vec<char>, needle: &Vec<char>) -> (b: bool)
    ensures
        b == contains_seq(hay@, needle@),
{
    find_from(hay, needle, 0).is_some()
}

/// Compares a text with a literal.
pub fn is_text(v: &Vec<char>, literal: &str) -> (r: bool)
    ensures
        r == (v@ == literal@),
{
    let other = to_chars(literal);
    chars_equal(v, &other)
}

/// Compares two texts.
pub fn same_text(a: &str, b: &str) -> (r: bool)
    ensures
        r == (a@ == b@),
{
    let ca = to_chars(a);
    let cb = to_chars(b);
    chars_equal(&ca, &cb)
}

/// Joins the parts with `sep` between them.
pub fn join_chars(parts: &Vec<Vec<char>>, sep: &Vec<char>) -> (r: Vec<char>)
    ensures
        r@ == join(views_of(parts@), sep@),
{
    let mut r: Vec<char> = Vec::new();
    let mut i: usize = 0;
    while i < parts.len()
        invariant
            i <= parts.len(),
            r@ == join(views_of(parts@).take(i as int), sep@),
        decreases parts.len() - i,
    {
        if i > 0 {
            extend_chars(&mut r, sep);
        }
        extend_chars(&mut r, &parts[i]);
        proof {
            let all = views_of(parts@);
            assert(all.take(i + 1).drop_last() =~= all.take(i as int));
            assert(all.take(i + 1).last() == parts@[i as int]@);
        }
        i += 1;
    }
    proof {
        assert(views_of(parts@).take(parts.len() as int) =~= views_of(parts@));
    }
    r
}

/// What `first_index_from` finds is the first occurrence from `from` on.
pub proof fn lemma_first_index_from(hay: Seq<char>, needle: Seq<char>, from: int)
    requires
        0 <= from,
    ensures
        ({
            let i = first_index_from(hay, needle, from);
            if i < 0 {
                i == -1 && forall|j: int| from <= j ==> !occurs_at(hay, needle, j)
            } else {
                from <= i && occurs_at(hay, needle, i) && forall|j: int|
                    from <= j < i ==> !occurs_at(hay, needle, j)
            }
        }),
    decreases hay.len() - from + 1,
{
    if from + needle.len() > hay.len() {
    } else if occurs_at(hay, needle, from) {
    } else {
        lemma_first_index_from(hay, needle, from + 1);
    }
}

/// Trimming never lengthens a text.
pub proof fn lemma_trim_len(s: Seq<char>)
    ensures
        trim_start(s).len() <= s.len(),
        trim_end(s).len() <= s.len(),
        trim(s).len() <= s.len(),
    decreases s.len(),
{
    if s.len() > 0 {
        lemma_trim_len(s.drop_first());
        lemma_trim_len(s.drop_last());
    }
    lemma_trim_end_len(trim_start(s));
}

/// Trimming the end never lengthens a text.
proof fn lemma_trim_end_len(s: Seq<char>)
    ensures
        trim_end(s).len() <= s.len(),
    decreases s.len(),
{
    if s.len() > 0 {
        lemma_trim_end_len(s.drop_last());
    }
}

/// What trimming leaves is a stretch of the text that neither starts nor
/// ends with white space.
pub proof fn lemma_trim_shape(s: Seq<char>)
    ensures
        is_trimmed(trim(s)),
        exists|a: int, b: int| 0 <= a <= b <= s.len() && trim(s) == #[trigger] s.subrange(a, b),
{
    lemma_trim_start_shape(s);
    let a = choose|a: int| 0 <= a <= s.len() && trim_start(s) == s.skip(a);
    let u = s.skip(a);
    lemma_trim_end_shape(u);
    let b = choose|b: int| 0 <= b <= u.len() && trim_end(u) == u.take(b);
    assert(u.take(b) =~= s.subrange(a, a + b));
    if trim(s).len() > 0 {
        assert(trim(s)[0] == u[0]);
    }
}

/// What trimming the start leaves is an end of the text that does not
/// begin with white space.
proof fn lemma_trim_start_shape(s: Seq<char>)
    ensures
        exists|a: int| 0 <= a <= s.len() && trim_start(s) == #[trigger] s.skip(a),
        trim_start(s).len() == 0 || !is_space(trim_start(s)[0]),
    decreases s.len(),
{
    if s.len() > 0 && is_space(s[0]) {
        lemma_trim_start_shape(s.drop_first());
        let a = choose|a: int|
            0 <= a <= s.drop_first().len() && trim_start(s.drop_first()) == s.drop_first().skip(a);
        assert(s.drop_first().skip(a) =~= s.skip(a + 1));
    } else {
        assert(s.skip(0) =~= s);
    }
}

/// What trimming the end leaves is a beginning of the text that does not
/// end with white space.
proof fn lemma_trim_end_shape(s: Seq<char>)
    ensures
        exists|b: int| 0 <= b <= s.len() && trim_end(s) == #[trigger] s.take(b),
        trim_end(s).len() == 0 || !is_space(trim_end(s).last()),
    decreases s.len(),
{
    if s.len() > 0 && is_space(s.last()) {
        lemma_trim_end_shape(s.drop_last());
        let b = choose|b: int|
            0 <= b <= s.drop_last().len() && trim_end(s.drop_last()) == s.drop_last().take(b);
        assert(s.drop_last().take(b) =~= s.take(b));
    } else {
        assert(s.take(s.len() as int) =~= s);
    }
}

/// Trimming leaves a text that neither starts nor ends with white space as
/// it is; so trimming twice is trimming once.
pub proof fn lemma_trim_fixed(t: Seq<char>)
    requires
        is_trimmed(t),
    ensures
        trim(t) == t,
{
}

/// An occurrence within a stretch of a text is an occurrence in the text.
pub proof fn lemma_occurs_in_subrange(s: Seq<char>, a: int, b: int, needle: Seq<char>, at: int)
    requires
        0 <= a <= b <= s.len(),
        occurs_at(s.subrange(a, b), needle, at),
    ensures
        occurs_at(s, needle, a + at),
{
    assert(s.subrange(a + at, a + at + needle.len()) =~= s.subrange(a, b).subrange(
        at,
        at + needle.len(),
    ));
}

/// Lowercasing leaves a text of ASCII characters without uppercase letters
/// as it is.
pub proof fn lemma_lowercase_plain(s: Seq<char>)
    requires
        plain_lower(s),
    ensures
        lowercase(s) == s,
{
    assert(all_ascii(s));
    assert(s.map_values(|c: char| ascii_lower(c)) =~= s);
}

/// The lowercase form of an ASCII text is ASCII and holds no uppercase
/// letter.
pub proof fn lemma_lowercase_ascii(s: Seq<char>)
    requires
        all_ascii(s),
    ensures
        plain_lower(lowercase(s)),
        lowercase(s).len() == s.len(),
{
    let low = lowercase(s);
    assert forall|i: int| 0 <= i < low.len() implies is_ascii_char(#[trigger] low[i]) && !('A'
        <= low[i] <= 'Z') by {
        let c = s[i];
        assert(is_ascii_char(c));
        assert(low[i] == ascii_lower(c));
        if 'A' <= c <= 'Z' {
            assert(65 <= c as u8 <= 90);
            assert(ascii_lower(c) as u32 == (c as u8) + 32);
        }
    }
}

/// A stretch of a text of ASCII characters without uppercase letters is
/// such a text.
pub proof fn lemma_plain_subrange(s: Seq<char>, a: int, b: int)
    requires
        plain_lower(s),
        0 <= a <= b <= s.len(),
    ensures
        plain_lower(s.subrange(a, b)),
{
    assert forall|i: int| 0 <= i < b - a implies is_ascii_char(#[trigger] s.subrange(a, b)[i]) && !(
    'A' <= s.subrange(a, b)[i] <= 'Z') by {
        assert(s.subrange(a, b)[i] == s[a + i]);
    }
}

/// Joining texts of ASCII characters without uppercase letters, with such a
/// separator, gives such a text.
pub proof fn lemma_join_plain(parts: Seq<Seq<char>>, sep: Seq<char>)
    requires
        forall|k: int| 0 <= k < parts.len() ==> plain_lower(#[trigger] parts[k]),
        plain_lower(sep),
    ensures
        plain_lower(join(parts, sep)),
    decreases parts.len(),
{
    if parts.len() >= 2 {
        assert forall|k: int| 0 <= k < parts.drop_last().len() implies plain_lower(
            #[trigger] parts.drop_last()[k],
        ) by {
            assert(parts.drop_last()[k] == parts[k]);
        }
        lemma_join_plain(parts.drop_last(), sep);
        assert(plain_lower(parts[parts.len() - 1]));
    } else if parts.len() == 1 {
        assert(plain_lower(parts[0]));
    }
}

} // verus!
