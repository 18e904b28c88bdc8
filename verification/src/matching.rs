//! Deterministic structural matching: normal forms of interface names, type
//! spellings, signatures and constraint targets, and the comparisons built
//! on them.

use crate::text::{
    chars_contain, chars_end_with, chars_equal, chars_start_with, contains_seq, ends_with,
    extend_chars, find_from, first_index_from, from_chars, is_lower, is_lower_char, is_space,
    is_space_char, is_text, is_upper, is_upper_char, join, join_chars, lemma_trim_len, lowercase, lowercase_chars, slice_chars, starts_with,
    to_chars, trim, trim_chars, views_of,
};
use vstd::prelude::*;

verus! {

/// The suffixes that a name may lose, in order of priority.
pub open spec fn name_suffixes() -> Seq<Seq<char>> {
    seq!["Model"@, "Service"@, "Handler"@, "Controller"@, "Spec"@, "Interface"@]
}

/// `s` without the first suffix of the list that it ends with and is longer
/// than; `s` itself when there is none.
pub open spec fn strip_first_suffix(s: Seq<char>, suffixes: Seq<Seq<char>>) -> Seq<char>
    decreases suffixes.len(),
{
    if suffixes.len() == 0 {
        s
    } else if ends_with(s, suffixes[0]) && s.len() > suffixes[0].len() {
        s.take(s.len() - suffixes[0].len())
    } else {
        strip_first_suffix(s, suffixes.drop_first())
    }
}

/// A new token starts at position `i`: an uppercase letter that follows a
/// lowercase letter or is followed by one.
pub open spec fn camel_boundary(s: Seq<char>, i: int) -> bool {
    0 < i < s.len() && is_upper(s[i]) && (is_lower(s[i - 1]) || (i + 1 < s.len() && is_lower(
        s[i + 1],
    )))
}

/// The tokens closed within the first `n` characters of `s`, and the token
/// still open there.
pub open spec fn camel_scan(s: Seq<char>, n: int) -> (Seq<Seq<char>>, Seq<char>)
    decreases n,
{
    if n <= 0 {
        (Seq::empty(), Seq::empty())
    } else {
        let (done, open) = camel_scan(s, n - 1);
        if camel_boundary(s, n - 1) {
            (done.push(open), seq![s[n - 1]])
        } else {
            (done, open.push(s[n - 1]))
        }
    }
}

/// The pieces of `s` between its token boundaries, in order.
pub open spec fn camel_tokens(s: Seq<char>) -> Seq<Seq<char>> {
    let (done, open) = camel_scan(s, s.len() as int);
    if open.len() > 0 {
        done.push(open)
    } else {
        done
    }
}

/// Each token in lowercase.
pub open spec fn lowercase_all(tokens: Seq<Seq<char>>) -> Seq<Seq<char>> {
    tokens.map_values(|t: Seq<char>| lowercase(t))
}

/// The normal form of an interface name: one known suffix removed, the rest
/// cut at capitalisation boundaries, each token lowercased, the tokens joined
/// by single spaces.
pub open spec fn normalized_name(name: Seq<char>) -> Seq<char> {
    if name.len() == 0 {
        Seq::empty()
    } else {
        join(lowercase_all(camel_tokens(strip_first_suffix(name, name_suffixes()))), " "@)
    }
}

/// Takes the first fitting suffix of the list off a name.
fn strip_known_suffix(chars: &Vec<char>) -> (r: Vec<char>)
    ensures
        r@ == strip_first_suffix(chars@, name_suffixes()),
{
    let suffixes: Vec<Vec<char>> = vec![
        to_chars("Model"),
        to_chars("Service"),
        to_chars("Handler"),
        to_chars("Controller"),
        to_chars("Spec"),
        to_chars("Interface"),
    ];
    proof {
        assert(views_of(suffixes@) =~= name_suffixes());
    }
    let mut i: usize = 0;
    proof {
        assert(name_suffixes().skip(0) =~= name_suffixes());
    }
    while i < suffixes.len()
        invariant
            i <= suffixes.len(),
            views_of(suffixes@) == name_suffixes(),
            strip_first_suffix(chars@, name_suffixes()) == strip_first_suffix(
                chars@,
                name_suffixes().skip(i as int),
            ),
        decreases suffixes.len() - i,
    {
        proof {
            assert(name_suffixes().skip(i as int)[0] == suffixes@[i as int]@);
            assert(name_suffixes().skip(i as int).drop_first() =~= name_suffixes().skip(i + 1));
        }
        if chars_end_with(chars, &suffixes[i]) && chars.len() > suffixes[i].len() {
            return slice_chars(chars, 0, chars.len() - suffixes[i].len());
        }
        i += 1;
    }
    slice_chars(chars, 0, chars.len())
}

/// Cuts a name at its capitalisation boundaries.
pub fn split_camel_case(chars: &Vec<char>) -> (tokens: Vec<Vec<char>>)
    ensures
        views_of(tokens@) == camel_tokens(chars@),
{
    let mut tokens: Vec<Vec<char>> = Vec::new();
    let mut current: Vec<char> = Vec::new();
    let n = chars.len();
    let mut i: usize = 0;
    while i < n
        invariant
            i <= n == chars.len(),
            camel_scan(chars@, i as int) == (views_of(tokens@), current@),
        decreases n - i,
    {
        let c = chars[i];
        let mut boundary = false;
        if i > 0 && is_upper_char(c) {
            let next_is_lower = i + 1 < n && is_lower_char(chars[i + 1]);
            let prev_is_lower = is_lower_char(chars[i - 1]);
            boundary = prev_is_lower || next_is_lower;
        }
        assert(boundary == camel_boundary(chars@, i as int));
        if boundary {
            let ghost before = views_of(tokens@);
            tokens.push(current);
            current = Vec::new();
            proof {
                assert(views_of(tokens@) =~= before.push(camel_scan(chars@, i as int).1));
            }
        }
        current.push(c);
        proof {
            assert(current@ =~= camel_scan(chars@, i + 1).1);
        }
        i += 1;
    }
    if current.len() > 0 {
        let ghost before = views_of(tokens@);
        let ghost last = current@;
        tokens.push(current);
        proof {
            assert(views_of(tokens@) =~= before.push(last));
        }
    }
    tokens
}

/// Lowercases each token.
fn lowercase_each(tokens: &Vec<Vec<char>>) -> (r: Vec<Vec<char>>)
    ensures
        views_of(r@) == lowercase_all(views_of(tokens@)),
{
    let mut r: Vec<Vec<char>> = Vec::new();
    let mut i: usize = 0;
    proof {
        assert(views_of(r@) =~= lowercase_all(views_of(tokens@).take(0)));
    }
    while i < tokens.len()
        invariant
            i <= tokens.len(),
            views_of(r@) == lowercase_all(views_of(tokens@).take(i as int)),
        decreases tokens.len() - i,
    {
        let low = lowercase_chars(&tokens[i]);
        let ghost before = views_of(r@);
        r.push(low);
        proof {
            let all = views_of(tokens@);
            assert(views_of(r@) =~= before.push(lowercase(all[i as int])));
            assert(lowercase_all(all.take(i + 1)) =~= lowercase_all(all.take(i as int)).push(
                lowercase(all[i as int]),
            ));
        }
        i += 1;
    }
    proof {
        assert(views_of(tokens@).take(tokens.len() as int) =~= views_of(tokens@));
    }
    r
}

/// The normal form of a name, on characters.
fn normalize_name_chars(chars: &Vec<char>) -> (r: Vec<char>)
    ensures
        r@ == normalized_name(chars@),
{
    if chars.len() == 0 {
        return Vec::new();
    }
    let stripped = strip_known_suffix(chars);
    let tokens = split_camel_case(&stripped);
    let lowered = lowercase_each(&tokens);
    let space = to_chars(" ");
    join_chars(&lowered, &space)
}

/// Brings an interface name into its normal form.
pub fn normalize_name(name: &str) -> (out: String)
    ensures
        out@ == normalized_name(name@),
{
    let chars = to_chars(name);
    let r = normalize_name_chars(&chars);
    from_chars(&r)
}

/// Two names refer to the same concept: neither is empty, and their normal
/// forms are equal, or one is a prefix of the other, or one occurs within
/// the other.
pub open spec fn names_overlapping(a: Seq<char>, b: Seq<char>) -> bool {
    a.len() > 0 && b.len() > 0 && {
        let na = normalized_name(a);
        let nb = normalized_name(b);
        na == nb || starts_with(na, nb) || starts_with(nb, na) || contains_seq(na, nb)
            || contains_seq(nb, na)
    }
}

/// Decides whether two interface names refer to the same concept.
pub fn names_overlap(a: &str, b: &str) -> (r: bool)
    ensures
        r == names_overlapping(a@, b@),
{
    let ca = to_chars(a);
    let cb = to_chars(b);
    if ca.len() == 0 || cb.len() == 0 {
        return false;
    }
    let na = normalize_name_chars(&ca);
    let nb = normalize_name_chars(&cb);
    if chars_equal(&na, &nb) {
        return true;
    }
    if chars_start_with(&na, &nb) || chars_start_with(&nb, &na) {
        return true;
    }
    chars_contain(&na, &nb) || chars_contain(&nb, &na)
}

/// `Optional[X]` stands for `X`.
pub open spec fn unwrap_optional(t: Seq<char>) -> Seq<char> {
    if starts_with(t, "Optional["@) && ends_with(t, "]"@) {
        t.subrange(9, t.len() - 1)
    } else {
        t
    }
}

/// The first arm of a union, from position `from` on, that is not `None`
/// once trimmed; the arms are separated by a bar between two spaces.
pub open spec fn first_kept_arm(t: Seq<char>, from: int) -> Option<Seq<char>>
    decreases t.len() - from,
{
    let i = first_index_from(t, " | "@, from);
    if from <= i && i + 3 <= t.len() {
        let arm = trim(t.subrange(from, i));
        if arm == "None"@ {
            first_kept_arm(t, i + 3)
        } else {
            Some(arm)
        }
    } else {
        let arm = trim(t.subrange(from, t.len() as int));
        if arm == "None"@ {
            None
        } else {
            Some(arm)
        }
    }
}

/// A union is reduced to its first arm that is not `None`; a text that is
/// no union stays as it is. A union of nothing but `None` reduces to nothing.
pub open spec fn reduce_union(t: Seq<char>) -> Option<Seq<char>> {
    if contains_seq(t, " | "@) {
        first_kept_arm(t, 0)
    } else {
        Some(t)
    }
}

/// What a container spelling (`list[X]`, `List[X]`, `Vec<X>`) contains,
/// trimmed.
pub open spec fn container_inner(t: Seq<char>) -> Option<Seq<char>> {
    if (starts_with(t, "list["@) || starts_with(t, "List["@)) && ends_with(t, "]"@) {
        Some(trim(t.subrange(5, t.len() - 1)))
    } else if starts_with(t, "Vec<"@) && ends_with(t, ">"@) {
        Some(trim(t.subrange(4, t.len() - 1)))
    } else {
        None
    }
}

/// The canonical name of a known scalar spelling.
pub open spec fn type_alias(t: Seq<char>) -> Option<Seq<char>> {
    if t == "UUID"@ || t == "uuid"@ {
        Some("uuid"@)
    } else if t == "str"@ || t == "String"@ || t == "string"@ {
        Some("str"@)
    } else if t == "int"@ || t == "i32"@ || t == "i64"@ || t == "i128"@ || t == "u32"@ || t
        == "u64"@ {
        Some("int"@)
    } else if t == "float"@ || t == "f32"@ || t == "f64"@ {
        Some("float"@)
    } else if t == "bool"@ || t == "boolean"@ {
        Some("bool"@)
    } else {
        None
    }
}

/// The normal form of a type spelling: trimmed, `Optional[..]` unwrapped, a
/// union reduced to its first arm that is not `None`, a container rewritten
/// as `list[..]` around the normal form of its contents, a known scalar
/// spelling replaced by its canonical name, anything else lowercased.
pub open spec fn normalized_type(t: Seq<char>) -> Seq<char>
    decreases t.len(),
    via normalized_type_decreases
{
    let t0 = trim(t);
    if t0.len() == 0 {
        Seq::empty()
    } else {
        match reduce_union(unwrap_optional(t0)) {
            None => Seq::empty(),
            Some(t2) => match container_inner(t2) {
                Some(inner) => "list["@ + normalized_type(inner) + "]"@,
                None => match type_alias(t2) {
                    Some(canonical) => canonical,
                    None => lowercase(t2),
                },
            },
        }
    }
}

/// The contents of a container are normalized in fewer characters than the
/// container.
#[via_fn]
proof fn normalized_type_decreases(t: Seq<char>) {
    let t0 = trim(t);
    if t0.len() != 0 {
        if let Some(t2) = reduce_union(unwrap_optional(t0)) {
            if let Some(inner) = container_inner(t2) {
                lemma_container_inner_shorter(t);
            }
        }
    }
}

/// The contents of a container are shorter than the spelling they were
/// taken from.
pub proof fn lemma_container_inner_shorter(t: Seq<char>)
    ensures
        match reduce_union(unwrap_optional(trim(t))) {
            Some(t2) => match container_inner(t2) {
                Some(inner) => inner.len() < t.len(),
                None => true,
            },
            None => true,
        },
{
    let t0 = trim(t);
    lemma_trim_len(t);
    let t1 = unwrap_optional(t0);
    reveal_strlit("Optional[");
    reveal_strlit("]");
    lemma_bracketed(t0, "Optional["@, "]"@);
    assert(t1.len() <= t0.len());
    if let Some(t2) = reduce_union(t1) {
        if contains_seq(t1, " | "@) {
            lemma_first_kept_arm_len(t1, 0);
        }
        assert(t2.len() <= t1.len());
        if let Some(inner) = container_inner(t2) {
            reveal_strlit("list[");
            reveal_strlit("List[");
            reveal_strlit("Vec<");
            reveal_strlit(">");
            lemma_bracketed(t2, "list["@, "]"@);
            lemma_bracketed(t2, "List["@, "]"@);
            lemma_bracketed(t2, "Vec<"@, ">"@);
            if (starts_with(t2, "list["@) || starts_with(t2, "List["@)) && ends_with(t2, "]"@) {
                lemma_trim_len(t2.subrange(5, t2.len() - 1));
            } else {
                lemma_trim_len(t2.subrange(4, t2.len() - 1));
            }
        }
    }
}

/// A text that starts with `open` and ends with the single character
/// `close`, where `open` ends otherwise, is longer than `open`.
pub proof fn lemma_bracketed(t: Seq<char>, open: Seq<char>, close: Seq<char>)
    requires
        open.len() > 0,
        close.len() == 1,
        open.last() != close[0],
    ensures
        starts_with(t, open) && ends_with(t, close) ==> t.len() > open.len(),
{
    if starts_with(t, open) && ends_with(t, close) {
        assert(t.subrange(0, open.len() as int)[open.len() - 1] == t[open.len() - 1]);
        assert(t.subrange(t.len() - 1, t.len() as int)[0] == t[t.len() - 1]);
    }
}

/// An arm of a union is no longer than the union from its start.
proof fn lemma_first_kept_arm_len(t: Seq<char>, from: int)
    requires
        0 <= from <= t.len(),
    ensures
        match first_kept_arm(t, from) {
            Some(arm) => arm.len() <= t.len() - from,
            None => true,
        },
    decreases t.len() - from,
{
    let i = first_index_from(t, " | "@, from);
    if from <= i && i + 3 <= t.len() {
        lemma_trim_len(t.subrange(from, i));
        if trim(t.subrange(from, i)) == "None"@ {
            lemma_first_kept_arm_len(t, i + 3);
        }
    } else {
        lemma_trim_len(t.subrange(from, t.len() as int));
    }
}

/// Unwraps `Optional[X]`.
fn strip_optional(t: &Vec<char>) -> (r: Vec<char>)
    ensures
        r@ == unwrap_optional(t@),
{
    let open = to_chars("Optional[");
    let close = to_chars("]");
    proof {
        reveal_strlit("Optional[");
        reveal_strlit("]");
        lemma_bracketed(t@, "Optional["@, "]"@);
    }
    if chars_start_with(t, &open) && chars_end_with(t, &close) {
        slice_chars(t, 9, t.len() - 1)
    } else {
        slice_chars(t, 0, t.len())
    }
}

/// Walks the arms of a union up to the first that is not `None`.
fn first_union_arm(t: &Vec<char>) -> (r: Option<Vec<char>>)
    ensures
        match r {
            Some(arm) => first_kept_arm(t@, 0) == Some(arm@),
            None => first_kept_arm(t@, 0) is None,
        },
{
    let bar = to_chars(" | ");
    proof {
        reveal_strlit(" | ");
    }
    let mut from: usize = 0;
    loop
        invariant
            from <= t.len(),
            bar@ == " | "@,
            bar@.len() == 3,
            first_kept_arm(t@, 0) == first_kept_arm(t@, from as int),
        decreases t.len() - from,
    {
        match find_from(t, &bar, from) {
            Some(i) => {
                let piece = slice_chars(t, from, i);
                let arm = trim_chars(&piece);
                if !is_text(&arm, "None") {
                    return Some(arm);
                }
                from = i + 3;
            },
            None => {
                let piece = slice_chars(t, from, t.len());
                let arm = trim_chars(&piece);
                if is_text(&arm, "None") {
                    return None;
                } else {
                    return Some(arm);
                }
            },
        }
    }
}

/// Reduces a union to its first arm that is not `None`.
fn reduce_union_chars(t: Vec<char>) -> (r: Option<Vec<char>>)
    ensures
        match r {
            Some(arm) => reduce_union(t@) == Some(arm@),
            None => reduce_union(t@) is None,
        },
{
    let bar = to_chars(" | ");
    if chars_contain(&t, &bar) {
        first_union_arm(&t)
    } else {
        Some(t)
    }
}

/// Takes the contents out of a container spelling.
pub fn extract_container_inner(t: &Vec<char>) -> (r: Option<Vec<char>>)
    ensures
        match r {
            Some(inner) => container_inner(t@) == Some(inner@),
            None => container_inner(t@) is None,
        },
{
    let lower = to_chars("list[");
    let upper = to_chars("List[");
    let square = to_chars("]");
    let vec_open = to_chars("Vec<");
    let angle = to_chars(">");
    proof {
        reveal_strlit("list[");
        reveal_strlit("List[");
        reveal_strlit("]");
        reveal_strlit("Vec<");
        reveal_strlit(">");
        lemma_bracketed(t@, "list["@, "]"@);
        lemma_bracketed(t@, "List["@, "]"@);
        lemma_bracketed(t@, "Vec<"@, ">"@);
    }
    if (chars_start_with(t, &lower) || chars_start_with(t, &upper)) && chars_end_with(t, &square) {
        let piece = slice_chars(t, 5, t.len() - 1);
        return Some(trim_chars(&piece));
    }
    if chars_start_with(t, &vec_open) && chars_end_with(t, &angle) {
        let piece = slice_chars(t, 4, t.len() - 1);
        return Some(trim_chars(&piece));
    }
    None
}

/// Looks a spelling up among the known scalar spellings.
fn alias_of(t: &Vec<char>) -> (r: Option<Vec<char>>)
    ensures
        match r {
            Some(canonical) => type_alias(t@) == Some(canonical@),
            None => type_alias(t@) is None,
        },
{
    if is_text(t, "UUID") || is_text(t, "uuid") {
        Some(to_chars("uuid"))
    } else if is_text(t, "str") || is_text(t, "String") || is_text(t, "string") {
        Some(to_chars("str"))
    } else if is_text(t, "int") || is_text(t, "i32") || is_text(t, "i64") || is_text(t, "i128")
        || is_text(t, "u32") || is_text(t, "u64") {
        Some(to_chars("int"))
    } else if is_text(t, "float") || is_text(t, "f32") || is_text(t, "f64") {
        Some(to_chars("float"))
    } else if is_text(t, "bool") || is_text(t, "boolean") {
        Some(to_chars("bool"))
    } else {
        None
    }
}

/// The normal form of a type spelling, on characters.
fn normalize_type_chars(t: &Vec<char>) -> (r: Vec<char>)
    ensures
        r@ == normalized_type(t@),
    decreases t@.len(),
{
    let t0 = trim_chars(t);
    if t0.len() == 0 {
        return Vec::new();
    }
    let t1 = strip_optional(&t0);
    match reduce_union_chars(t1) {
        None => Vec::new(),
        Some(t2) => {
            match extract_container_inner(&t2) {
                Some(inner) => {
                    proof {
                        lemma_container_inner_shorter(t@);
                    }
                    let normal = normalize_type_chars(&inner);
                    let mut r = to_chars("list[");
                    extend_chars(&mut r, &normal);
                    let close = to_chars("]");
                    extend_chars(&mut r, &close);
                    r
                },
                None => {
                    match alias_of(&t2) {
                        Some(canonical) => canonical,
                        None => lowercase_chars(&t2),
                    }
                },
            }
        },
    }
}

/// Brings a type spelling into its normal form.
pub fn normalize_type(t: &str) -> (out: String)
    ensures
        out@ == normalized_type(t@),
{
    let chars = to_chars(t);
    let r = normalize_type_chars(&chars);
    from_chars(&r)
}

/// The pieces of `s` between the occurrences of `sep`, in order. A text
/// without `sep` is one piece.
pub open spec fn split_char(s: Seq<char>, sep: char) -> Seq<Seq<char>>
    decreases s.len(),
{
    if s.len() == 0 {
        seq![Seq::empty()]
    } else {
        let before = split_char(s.drop_last(), sep);
        if s.last() == sep {
            before.push(Seq::empty())
        } else {
            before.drop_last().push(before.last().push(s.last()))
        }
    }
}

/// One segment of a signature read as `field: type`: cut at the first
/// colon, both sides trimmed. A segment without a colon is no field.
pub open spec fn parsed_field(segment: Seq<char>) -> Option<(Seq<char>, Seq<char>)> {
    let p = trim(segment);
    let i = first_index_from(p, ":"@, 0);
    if 0 <= i < p.len() {
        Some((trim(p.take(i)), trim(p.skip(i + 1))))
    } else {
        None
    }
}

/// The fields that the segments hold, in order.
pub open spec fn parsed_fields(segments: Seq<Seq<char>>) -> Seq<(Seq<char>, Seq<char>)>
    decreases segments.len(),
{
    if segments.len() == 0 {
        Seq::empty()
    } else {
        let before = parsed_fields(segments.drop_last());
        match parsed_field(segments.last()) {
            Some(field) => before.push(field),
            None => before,
        }
    }
}

/// The `(field, type)` pairs of a signature text: its comma-separated
/// segments, each read as `field: type`. A blank text has none.
pub open spec fn parsed_signature(sig: Seq<char>) -> Seq<(Seq<char>, Seq<char>)> {
    if trim(sig).len() == 0 {
        Seq::empty()
    } else {
        parsed_fields(split_char(sig, ','))
    }
}

/// Cuts a text at each occurrence of `sep`.
fn split_on_char(s: &Vec<char>, sep: char) -> (pieces: Vec<Vec<char>>)
    ensures
        views_of(pieces@) == split_char(s@, sep),
{
    let mut pieces: Vec<Vec<char>> = Vec::new();
    let mut current: Vec<char> = Vec::new();
    let mut i: usize = 0;
    proof {
        assert(s@.take(0) =~= Seq::<char>::empty());
        assert(views_of(pieces@).push(current@) =~= split_char(s@.take(0), sep));
    }
    while i < s.len()
        invariant
            i <= s.len(),
            views_of(pieces@).push(current@) == split_char(s@.take(i as int), sep),
        decreases s.len() - i,
    {
        let c = s[i];
        let ghost before = views_of(pieces@);
        let ghost open = current@;
        proof {
            assert(s@.take(i + 1).drop_last() =~= s@.take(i as int));
            assert(before.push(open).drop_last() =~= before);
        }
        if c == sep {
            pieces.push(current);
            current = Vec::new();
            proof {
                assert(views_of(pieces@) =~= before.push(open));
            }
        } else {
            current.push(c);
        }
        i += 1;
    }
    let ghost before = views_of(pieces@);
    let ghost open = current@;
    pieces.push(current);
    proof {
        assert(s@.take(s.len() as int) =~= s@);
        assert(views_of(pieces@) =~= before.push(open));
    }
    pieces
}

/// Reads one segment as `field: type`.
fn parse_field(segment: &Vec<char>) -> (r: Option<(Vec<char>, Vec<char>)>)
    ensures
        match r {
            Some(field) => parsed_field(segment@) == Some((field.0@, field.1@)),
            None => parsed_field(segment@) is None,
        },
{
    let p = trim_chars(segment);
    let colon = to_chars(":");
    proof {
        reveal_strlit(":");
    }
    match find_from(&p, &colon, 0) {
        Some(i) => {
            let left = slice_chars(&p, 0, i);
            let right = slice_chars(&p, i + 1, p.len());
            Some((trim_chars(&left), trim_chars(&right)))
        },
        None => None,
    }
}

/// The fields of a signature text, on characters.
fn parse_signature_chars(sig: &Vec<char>) -> (fields: Vec<(Vec<char>, Vec<char>)>)
    ensures
        views_of(fields@) == parsed_signature(sig@),
{
    let mut fields: Vec<(Vec<char>, Vec<char>)> = Vec::new();
    if trim_chars(sig).len() == 0 {
        proof {
            assert(views_of(fields@) =~= parsed_signature(sig@));
        }
        return fields;
    }
    let segments = split_on_char(sig, ',');
    let mut i: usize = 0;
    proof {
        assert(views_of(fields@) =~= parsed_fields(views_of(segments@).take(0)));
    }
    while i < segments.len()
        invariant
            i <= segments.len(),
            views_of(fields@) == parsed_fields(views_of(segments@).take(i as int)),
        decreases segments.len() - i,
    {
        let ghost before = views_of(fields@);
        proof {
            let all = views_of(segments@);
            assert(all.take(i + 1).drop_last() =~= all.take(i as int));
            assert(all.take(i + 1).last() == segments@[i as int]@);
        }
        match parse_field(&segments[i]) {
            Some(field) => {
                let ghost pair = (field.0@, field.1@);
                fields.push(field);
                proof {
                    assert(views_of(fields@) =~= before.push(pair));
                }
            },
            None => {},
        }
        i += 1;
    }
    proof {
        assert(views_of(segments@).take(segments.len() as int) =~= views_of(segments@));
    }
    fields
}

/// Reads a signature text as a list of `(field, type)` pairs.
pub fn parse_signature(sig: &str) -> (out: Vec<(String, String)>)
    ensures
        views_of(out@) == parsed_signature(sig@),
{
    let chars = to_chars(sig);
    let fields = parse_signature_chars(&chars);
    let mut out: Vec<(String, String)> = Vec::new();
    let mut i: usize = 0;
    while i < fields.len()
        invariant
            i <= fields.len(),
            views_of(out@) == views_of(fields@).take(i as int),
        decreases fields.len() - i,
    {
        let name = from_chars(&fields[i].0);
        let ty = from_chars(&fields[i].1);
        let ghost before = views_of(out@);
        let ghost pair = (name@, ty@);
        out.push((name, ty));
        proof {
            assert(views_of(out@) =~= before.push(pair));
            assert(views_of(fields@)[i as int] == pair);
            assert(views_of(fields@).take(i + 1) =~= views_of(fields@).take(i as int).push(pair));
        }
        i += 1;
    }
    proof {
        assert(views_of(fields@).take(fields.len() as int) =~= views_of(fields@));
    }
    out
}

/// The type of the first field of that name, if there is one.
pub open spec fn field_type(fields: Seq<(Seq<char>, Seq<char>)>, name: Seq<char>) -> Option<
    Seq<char>,
>
    decreases fields.len(),
{
    if fields.len() == 0 {
        None
    } else if fields[0].0 == name {
        Some(fields[0].1)
    } else {
        field_type(fields.drop_first(), name)
    }
}

/// The offered fields hold one of the same name whose type has the same
/// normal form.
pub open spec fn field_satisfied(
    field: (Seq<char>, Seq<char>),
    offered: Seq<(Seq<char>, Seq<char>)>,
) -> bool {
    match field_type(offered, field.0) {
        Some(t) => normalized_type(field.1) == normalized_type(t),
        None => false,
    }
}

/// Signature `b` satisfies everything that signature `a` declares: each
/// field of `a` exists in `b` under the same name with a type of the same
/// normal form. A signature without fields is satisfied by any.
pub open spec fn compatible_signatures(a: Seq<char>, b: Seq<char>) -> bool {
    let wanted = parsed_signature(a);
    let offered = parsed_signature(b);
    forall|i: int| 0 <= i < wanted.len() ==> field_satisfied(#[trigger] wanted[i], offered)
}

/// The position of the first field of that name.
fn find_field_type(fields: &Vec<(Vec<char>, Vec<char>)>, name: &Vec<char>) -> (r: Option<usize>)
    ensures
        match r {
            Some(j) => j < fields.len() && field_type(views_of(fields@), name@) == Some(
                fields@[j as int].1@,
            ),
            None => field_type(views_of(fields@), name@) is None,
        },
{
    let mut j: usize = 0;
    proof {
        assert(views_of(fields@).skip(0) =~= views_of(fields@));
    }
    while j < fields.len()
        invariant
            j <= fields.len(),
            field_type(views_of(fields@), name@) == field_type(
                views_of(fields@).skip(j as int),
                name@,
            ),
        decreases fields.len() - j,
    {
        proof {
            let all = views_of(fields@);
            assert(all.skip(j as int)[0] == (fields@[j as int].0@, fields@[j as int].1@));
            assert(all.skip(j as int).drop_first() =~= all.skip(j + 1));
        }
        if chars_equal(&fields[j].0, name) {
            return Some(j);
        }
        j += 1;
    }
    None
}

/// Decides whether signature `b` satisfies everything that `a` declares.
pub fn signatures_compatible(a: &str, b: &str) -> (r: bool)
    ensures
        r == compatible_signatures(a@, b@),
{
    let ca = to_chars(a);
    let cb = to_chars(b);
    let wanted = parse_signature_chars(&ca);
    let offered = parse_signature_chars(&cb);
    let mut i: usize = 0;
    while i < wanted.len()
        invariant
            i <= wanted.len(),
            views_of(wanted@) == parsed_signature(a@),
            views_of(offered@) == parsed_signature(b@),
            forall|k: int|
                0 <= k < i ==> field_satisfied(#[trigger] views_of(wanted@)[k], views_of(offered@)),
        decreases wanted.len() - i,
    {
        let ghost field = views_of(wanted@)[i as int];
        assert(field == (wanted@[i as int].0@, wanted@[i as int].1@));
        match find_field_type(&offered, &wanted[i].0) {
            Some(j) => {
                let mine = normalize_type_chars(&wanted[i].1);
                let theirs = normalize_type_chars(&offered[j].1);
                if !chars_equal(&mine, &theirs) {
                    assert(!field_satisfied(field, views_of(offered@)));
                    return false;
                }
            },
            None => {
                assert(!field_satisfied(field, views_of(offered@)));
                return false;
            },
        }
        i += 1;
    }
    true
}

/// Underscores and hyphens read as spaces.
pub open spec fn dash_to_space(c: char) -> char {
    if c == '_' || c == '-' {
        ' '
    } else {
        c
    }
}

/// The words closed within the first `n` characters of `s`, and the word
/// still open there. White space ends a word and belongs to none.
pub open spec fn word_scan(s: Seq<char>, n: int) -> (Seq<Seq<char>>, Seq<char>)
    decreases n,
{
    if n <= 0 {
        (Seq::empty(), Seq::empty())
    } else {
        let (done, open) = word_scan(s, n - 1);
        if !is_space(s[n - 1]) {
            (done, open.push(s[n - 1]))
        } else if open.len() > 0 {
            (done.push(open), Seq::empty())
        } else {
            (done, open)
        }
    }
}

/// The maximal runs of characters other than white space, in order.
pub open spec fn words(s: Seq<char>) -> Seq<Seq<char>> {
    let (done, open) = word_scan(s, s.len() as int);
    if open.len() > 0 {
        done.push(open)
    } else {
        done
    }
}

/// `s` without `suffix` at its end, where it ends so.
pub open spec fn without_suffix(s: Seq<char>, suffix: Seq<char>) -> Seq<char> {
    if ends_with(s, suffix) {
        s.take(s.len() - suffix.len())
    } else {
        s
    }
}

/// The normal form of a constraint target: lowercased, underscores and
/// hyphens read as spaces, runs of white space collapsed to one space, a
/// trailing word `model` and then a trailing word `service` removed, trimmed.
pub open spec fn normalized_target(target: Seq<char>) -> Seq<char> {
    let spaced = lowercase(target).map_values(|c: char| dash_to_space(c));
    let collapsed = join(words(spaced), " "@);
    trim(without_suffix(without_suffix(collapsed, " model"@), " service"@))
}

/// Cuts a text into its words.
fn split_words(s: &Vec<char>) -> (r: Vec<Vec<char>>)
    ensures
        views_of(r@) == words(s@),
{
    let mut done: Vec<Vec<char>> = Vec::new();
    let mut current: Vec<char> = Vec::new();
    let mut i: usize = 0;
    proof {
        assert(views_of(done@) =~= word_scan(s@, 0).0);
    }
    while i < s.len()
        invariant
            i <= s.len(),
            word_scan(s@, i as int) == (views_of(done@), current@),
        decreases s.len() - i,
    {
        let c = s[i];
        if !is_space_char(c) {
            current.push(c);
        } else if current.len() > 0 {
            let ghost before = views_of(done@);
            let ghost open = current@;
            done.push(current);
            current = Vec::new();
            proof {
                assert(views_of(done@) =~= before.push(open));
            }
        }
        proof {
            assert(current@ =~= word_scan(s@, i + 1).1);
        }
        i += 1;
    }
    if current.len() > 0 {
        let ghost before = views_of(done@);
        let ghost open = current@;
        done.push(current);
        proof {
            assert(views_of(done@) =~= before.push(open));
        }
    }
    done
}

/// Takes `suffix` off the end of a text that ends with it.
fn strip_suffix(s: Vec<char>, suffix: &str) -> (r: Vec<char>)
    ensures
        r@ == without_suffix(s@, suffix@),
{
    let tail = to_chars(suffix);
    if chars_end_with(&s, &tail) {
        slice_chars(&s, 0, s.len() - tail.len())
    } else {
        s
    }
}

/// Brings a constraint target into its normal form.
pub fn normalize_constraint_target(target: &str) -> (out: String)
    ensures
        out@ == normalized_target(target@),
{
    let chars = to_chars(target);
    let lowered = lowercase_chars(&chars);
    let mut spaced: Vec<char> = Vec::new();
    let mut i: usize = 0;
    while i < lowered.len()
        invariant
            i <= lowered.len(),
            spaced@ == lowered@.take(i as int).map_values(|c: char| dash_to_space(c)),
        decreases lowered.len() - i,
    {
        let c = lowered[i];
        let ghost before = spaced@;
        if c == '_' || c == '-' {
            spaced.push(' ');
        } else {
            spaced.push(c);
        }
        proof {
            assert(spaced@ == before.push(dash_to_space(c)));
            assert(spaced@ =~= lowered@.take(i + 1).map_values(|c: char| dash_to_space(c)));
        }
        i += 1;
    }
    proof {
        assert(lowered@.take(lowered.len() as int) =~= lowered@);
        assert(spaced@ =~= lowercase(target@).map_values(|c: char| dash_to_space(c)));
    }
    let tokens = split_words(&spaced);
    let space = to_chars(" ");
    let collapsed = join_chars(&tokens, &space);
    let t = strip_suffix(collapsed, " model");
    let t = strip_suffix(t, " service");
    let r = trim_chars(&t);
    from_chars(&r)
}

} // verus!
