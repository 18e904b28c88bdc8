//! Laws of the normal forms: normalizing twice is normalizing once, and
//! what the pieces of a name, a split and a target are like.

use crate::matching::{
    camel_boundary, camel_scan, camel_tokens, container_inner, first_kept_arm,
    lemma_bracketed, lemma_container_inner_shorter, lowercase_all, name_suffixes,
    names_overlapping, normalized_name, normalized_type, reduce_union, split_char, strip_first_suffix, type_alias,
    unwrap_optional, word_scan, words,
};
use crate::text::{
    all_ascii, contains_seq, ends_with, first_index_from, is_ascii_char, is_space, is_trimmed,
    is_upper, join, lemma_first_index_from, lemma_join_plain, lemma_lowercase_ascii,
    lemma_lowercase_plain, lemma_occurs_in_subrange, lemma_plain_subrange, lemma_trim_fixed,
    lemma_trim_shape, occurs_at, plain_lower, starts_with, trim,
};
use vstd::prelude::*;

verus! {

/// What is left after stripping a suffix is the text or a beginning of it.
pub proof fn lemma_strip_is_prefix(s: Seq<char>, suffixes: Seq<Seq<char>>)
    ensures
        strip_first_suffix(s, suffixes).len() <= s.len(),
        forall|i: int|
            0 <= i < strip_first_suffix(s, suffixes).len() ==> #[trigger] strip_first_suffix(
                s,
                suffixes,
            )[i] == s[i],
        (forall|k: int| 0 <= k < suffixes.len() ==> !ends_with(s, #[trigger] suffixes[k]))
            ==> strip_first_suffix(s, suffixes) == s,
    decreases suffixes.len(),
{
    if suffixes.len() > 0 {
        lemma_strip_is_prefix(s, suffixes.drop_first());
        if forall|k: int| 0 <= k < suffixes.len() ==> !ends_with(s, #[trigger] suffixes[k]) {
            assert(!ends_with(s, suffixes[0]));
            assert forall|k: int| 0 <= k < suffixes.drop_first().len() implies !ends_with(
                s,
                #[trigger] suffixes.drop_first()[k],
            ) by {
                assert(suffixes.drop_first()[k] == suffixes[k + 1]);
            }
        }
    }
}

/// The tokens of a scan hold the scanned characters: of an ASCII text they
/// are ASCII, and a text without uppercase letters stays in one piece.
pub proof fn lemma_camel_scan(s: Seq<char>, n: int)
    requires
        0 <= n <= s.len(),
    ensures
        all_ascii(s) ==> all_ascii(camel_scan(s, n).1) && forall|k: int|
            0 <= k < camel_scan(s, n).0.len() ==> all_ascii(#[trigger] camel_scan(s, n).0[k]),
        (forall|i: int| 0 <= i < s.len() ==> !is_upper(#[trigger] s[i])) ==> camel_scan(s, n) == (
            Seq::<Seq<char>>::empty(),
            s.take(n),
        ),
    decreases n,
{
    if n > 0 {
        lemma_camel_scan(s, n - 1);
        let (done, open) = camel_scan(s, n - 1);
        if forall|i: int| 0 <= i < s.len() ==> !is_upper(#[trigger] s[i]) {
            assert(!is_upper(s[n - 1]));
            assert(s.take(n - 1).push(s[n - 1]) =~= s.take(n));
        }
        if all_ascii(s) {
            assert(is_ascii_char(s[n - 1]));
            if camel_boundary(s, n - 1) {
                assert forall|k: int| 0 <= k < done.push(open).len() implies all_ascii(
                    #[trigger] done.push(open)[k],
                ) by {
                    if k < done.len() {
                        assert(done.push(open)[k] == done[k]);
                    }
                }
            }
        }
    } else {
        assert(s.take(0) =~= Seq::<char>::empty());
    }
}

/// A text of ASCII characters without uppercase letters is its own normal
/// form as a name.
pub proof fn lemma_lowercase_name_is_normal(name: Seq<char>)
    requires
        plain_lower(name),
    ensures
        normalized_name(name) == name,
{
    if name.len() > 0 {
        reveal_strlit("Model");
        reveal_strlit("Service");
        reveal_strlit("Handler");
        reveal_strlit("Controller");
        reveal_strlit("Spec");
        reveal_strlit("Interface");
        reveal_strlit(" ");
        let suffixes = name_suffixes();
        assert forall|k: int| 0 <= k < suffixes.len() implies !ends_with(
            name,
            #[trigger] suffixes[k],
        ) by {
            let suffix = suffixes[k];
            if ends_with(name, suffix) {
                let at = name.len() - suffix.len();
                assert(name.subrange(at, at + suffix.len())[0] == name[at]);
                assert('A' <= suffix[0] <= 'Z');
            }
        }
        lemma_strip_is_prefix(name, suffixes);
        assert forall|i: int| 0 <= i < name.len() implies !is_upper(#[trigger] name[i]) by {}
        lemma_camel_scan(name, name.len() as int);
        assert(name.take(name.len() as int) =~= name);
        assert(camel_tokens(name) =~= seq![name]);
        lemma_lowercase_plain(name);
        assert(lowercase_all(seq![name]) =~= seq![name]);
    }
}

/// The normal form of an ASCII name is ASCII and holds no uppercase letter.
pub proof fn lemma_normalized_name_plain(name: Seq<char>)
    requires
        all_ascii(name),
    ensures
        plain_lower(normalized_name(name)),
{
    if name.len() > 0 {
        reveal_strlit(" ");
        let stripped = strip_first_suffix(name, name_suffixes());
        lemma_strip_is_prefix(name, name_suffixes());
        assert(all_ascii(stripped)) by {
            assert forall|i: int| 0 <= i < stripped.len() implies is_ascii_char(
                #[trigger] stripped[i],
            ) by {
                assert(stripped[i] == name[i]);
            }
        }
        lemma_camel_scan(stripped, stripped.len() as int);
        let tokens = camel_tokens(stripped);
        let lowered = lowercase_all(tokens);
        assert forall|k: int| 0 <= k < lowered.len() implies plain_lower(#[trigger] lowered[k]) by {
            let (done, open) = camel_scan(stripped, stripped.len() as int);
            if k < done.len() {
                assert(tokens[k] == done[k]);
            } else {
                assert(tokens[k] == open);
            }
            lemma_lowercase_ascii(tokens[k]);
        }
        lemma_join_plain(lowered, " "@);
    }
}

/// Normalizing a name is idempotent on ASCII names: the normal form of a
/// normal form is that normal form.
pub proof fn lemma_normalize_name_idempotent(name: Seq<char>)
    requires
        all_ascii(name),
    ensures
        normalized_name(normalized_name(name)) == normalized_name(name),
{
    lemma_normalized_name_plain(name);
    lemma_lowercase_name_is_normal(normalized_name(name));
}

/// A type spelling in canonical form: ASCII without uppercase letters,
/// trimmed, no union, and its own normal form.
pub open spec fn canonical_type(z: Seq<char>) -> bool {
    &&& plain_lower(z)
    &&& is_trimmed(z)
    &&& !contains_seq(z, " | "@)
    &&& normalized_type(z) == z
}

/// Where the bar between two spaces stands, these three characters stand.
proof fn lemma_bar_chars(z: Seq<char>, at: int)
    requires
        occurs_at(z, " | "@, at),
    ensures
        at + 3 <= z.len(),
        z[at] == ' ',
        z[at + 1] == '|',
        z[at + 2] == ' ',
{
    reveal_strlit(" | ");
    let piece = z.subrange(at, at + 3);
    assert(piece[0] == z[at]);
    assert(piece[1] == z[at + 1]);
    assert(piece[2] == z[at + 2]);
}

/// A trimmed lowercase spelling that is no union, no container and no known
/// scalar is its own normal form.
proof fn lemma_plain_type_fixed(t: Seq<char>)
    requires
        plain_lower(t),
        is_trimmed(t),
        !contains_seq(t, " | "@),
        container_inner(t) is None,
        type_alias(t) is None,
    ensures
        normalized_type(t) == t,
{
    lemma_trim_fixed(t);
    if t.len() > 0 {
        reveal_strlit("Optional[");
        if starts_with(t, "Optional["@) {
            assert(t.subrange(0, 9)[0] == t[0]);
        }
        assert(unwrap_optional(t) == t);
        lemma_lowercase_plain(t);
    } else {
        assert(t =~= Seq::<char>::empty());
    }
}

/// A lowercase spelling that does not begin with `l` is no container.
proof fn lemma_no_container(a: Seq<char>)
    requires
        a.len() > 0,
        a[0] != 'l',
        plain_lower(a),
    ensures
        container_inner(a) is None,
{
    reveal_strlit("list[");
    reveal_strlit("List[");
    reveal_strlit("Vec<");
    if starts_with(a, "list["@) {
        assert(a.subrange(0, 5)[0] == a[0]);
    }
    if starts_with(a, "List["@) {
        assert(a.subrange(0, 5)[0] == a[0]);
    }
    if starts_with(a, "Vec<"@) {
        assert(a.subrange(0, 4)[0] == a[0]);
    }
}

/// A spelling without a space is no union.
proof fn lemma_spaceless(a: Seq<char>)
    requires
        forall|i: int| 0 <= i < a.len() ==> #[trigger] a[i] != ' ',
    ensures
        !contains_seq(a, " | "@),
{
    if contains_seq(a, " | "@) {
        let at = choose|at: int| occurs_at(a, " | "@, at);
        lemma_bar_chars(a, at);
    }
}

/// The canonical names of the scalar types are in canonical form.
proof fn lemma_alias_canonical(t: Seq<char>)
    requires
        type_alias(t) is Some,
    ensures
        canonical_type(type_alias(t)->0),
{
    reveal_strlit("UUID");
    reveal_strlit("uuid");
    reveal_strlit("str");
    reveal_strlit("String");
    reveal_strlit("string");
    reveal_strlit("int");
    reveal_strlit("i32");
    reveal_strlit("i64");
    reveal_strlit("i128");
    reveal_strlit("u32");
    reveal_strlit("u64");
    reveal_strlit("float");
    reveal_strlit("f32");
    reveal_strlit("f64");
    reveal_strlit("bool");
    reveal_strlit("boolean");
    reveal_strlit("Optional[");
    let a = type_alias(t)->0;
    assert(a == "uuid"@ || a == "str"@ || a == "int"@ || a == "float"@ || a == "bool"@);
    assert(a.len() > 0 && a[0] != 'l' && a[0] != 'O' && a[0] != ' ');
    assert(plain_lower(a));
    assert(is_trimmed(a));
    lemma_spaceless(a);
    lemma_no_container(a);
    lemma_trim_fixed(a);
    if starts_with(a, "Optional["@) {
        assert(a.subrange(0, 9)[0] == a[0]);
    }
    assert(unwrap_optional(a) == a);
    assert(reduce_union(a) == Some(a));
    assert(type_alias(a) == Some(a)) by {
        assert("uuid"@[0] == 'u' && "UUID"@[0] == 'U' && "str"@[0] == 's' && "int"@[0] == 'i'
            && "i32"@[0] == 'i' && "i64"@[0] == 'i' && "i128"@[0] == 'i' && "u32"@[0] == 'u'
            && "u64"@[0] == 'u' && "f32"@[0] == 'f' && "f64"@[0] == 'f' && "bool"@[0] == 'b');
        assert("int"@[1] == 'n' && "i32"@[1] == '3' && "i64"@[1] == '6');
    }
}

/// A container around a canonical spelling is canonical.
proof fn lemma_list_canonical(z: Seq<char>)
    requires
        canonical_type(z),
    ensures
        canonical_type("list["@ + z + "]"@),
{
    reveal_strlit("list[");
    reveal_strlit("]");
    reveal_strlit("Optional[");
    let r = "list["@ + z + "]"@;
    assert(r.len() == z.len() + 6);
    assert(r[0] == 'l' && r[1] == 'i' && r[2] == 's' && r[3] == 't' && r[4] == '[');
    assert(r[r.len() - 1] == ']');
    assert forall|i: int| 0 <= i < r.len() implies is_ascii_char(#[trigger] r[i]) && !('A' <= r[i]
        <= 'Z') by {
        if 5 <= i < r.len() - 1 {
            assert(r[i] == z[i - 5]);
        }
    }
    assert(is_trimmed(r));
    lemma_trim_fixed(r);
    if contains_seq(r, " | "@) {
        let at = choose|at: int| occurs_at(r, " | "@, at);
        lemma_bar_chars(r, at);
        assert(5 <= at && at + 2 < r.len() - 1);
        assert(z.subrange(at - 5, at - 5 + 3) =~= r.subrange(at, at + 3));
        reveal_strlit(" | ");
        assert(occurs_at(z, " | "@, at - 5));
    }
    if starts_with(r, "Optional["@) {
        assert(r.subrange(0, 9)[0] == r[0]);
    }
    assert(unwrap_optional(r) == r);
    assert(reduce_union(r) == Some(r));
    assert(r.subrange(0, 5) =~= "list["@);
    assert(r.subrange(r.len() - 1, r.len() as int) =~= "]"@);
    assert(starts_with(r, "list["@) && ends_with(r, "]"@));
    assert(r.subrange(5, r.len() - 1) =~= z);
    lemma_trim_fixed(z);
    assert(container_inner(r) == Some(z));
}

/// The part of a type spelling that no rule recognizes and that is
/// lowercased as it stands, found through `Optional`, unions and containers;
/// none where the spelling ends in a known scalar or in nothing.
pub open spec fn unrecognized_rest(t: Seq<char>) -> Option<Seq<char>>
    decreases t.len(),
    via unrecognized_rest_decreases
{
    let t0 = trim(t);
    if t0.len() == 0 {
        None
    } else {
        match reduce_union(unwrap_optional(t0)) {
            None => None,
            Some(t2) => match container_inner(t2) {
                Some(inner) => unrecognized_rest(inner),
                None => match type_alias(t2) {
                    Some(canonical) => None,
                    None => Some(t2),
                },
            },
        }
    }
}

/// The contents of a container are searched in fewer characters than the
/// container.
#[via_fn]
proof fn unrecognized_rest_decreases(t: Seq<char>) {
    let t0 = trim(t);
    if t0.len() != 0 {
        if let Some(t2) = reduce_union(unwrap_optional(t0)) {
            if let Some(inner) = container_inner(t2) {
                lemma_container_inner_shorter(t);
            }
        }
    }
}

/// A type spelling is settled where the part that no rule recognizes, if
/// there is one, is trimmed ASCII without uppercase letters.
pub open spec fn settled_type(t: Seq<char>) -> bool {
    match unrecognized_rest(t) {
        Some(rest) => plain_lower(rest) && is_trimmed(rest),
        None => true,
    }
}

/// The arm that a union reduces to is trimmed and no union itself; of a
/// lowercase ASCII spelling it is lowercase ASCII.
proof fn lemma_union_arm_shape(t: Seq<char>, from: int)
    requires
        0 <= from <= t.len(),
    ensures
        match first_kept_arm(t, from) {
            Some(arm) => is_trimmed(arm) && !contains_seq(arm, " | "@) && (plain_lower(t)
                ==> plain_lower(arm)),
            None => true,
        },
    decreases t.len() - from,
{
    lemma_first_index_from(t, " | "@, from);
    let i = first_index_from(t, " | "@, from);
    let to = if from <= i && i + 3 <= t.len() {
        i
    } else {
        t.len() as int
    };
    let piece = t.subrange(from, to);
    let arm = trim(piece);
    lemma_trim_shape(piece);
    let (a, b) = choose|a: int, b: int|
        0 <= a <= b <= piece.len() && trim(piece) == #[trigger] piece.subrange(a, b);
    if plain_lower(t) {
        lemma_plain_subrange(t, from, to);
        lemma_plain_subrange(piece, a, b);
    }
    reveal_strlit(" | ");
    if contains_seq(arm, " | "@) {
        let at = choose|at: int| occurs_at(arm, " | "@, at);
        lemma_bar_chars(arm, at);
        lemma_occurs_in_subrange(piece, a, b, " | "@, at);
        lemma_occurs_in_subrange(t, from, to, " | "@, a + at);
        assert(from + a + at + 3 <= to);
    }
    if from <= i && i + 3 <= t.len() {
        if arm == "None"@ {
            lemma_union_arm_shape(t, i + 3);
        }
    }
}

/// The normal form of a settled type spelling is canonical.
pub proof fn lemma_settled_type_canonical(t: Seq<char>)
    requires
        settled_type(t),
    ensures
        canonical_type(normalized_type(t)),
    decreases t.len(),
{
    let none = Seq::<char>::empty();
    assert(canonical_type(none)) by {
        assert(trim(none) =~= none);
        if contains_seq(none, " | "@) {
            let at = choose|at: int| occurs_at(none, " | "@, at);
            lemma_bar_chars(none, at);
        }
    }
    let t0 = trim(t);
    if t0.len() > 0 {
        let t1 = unwrap_optional(t0);
        if contains_seq(t1, " | "@) {
            lemma_union_arm_shape(t1, 0);
        }
        match reduce_union(t1) {
            None => {},
            Some(t2) => {
                assert(!contains_seq(t2, " | "@));
                match container_inner(t2) {
                    Some(inner) => {
                        lemma_container_inner_shorter(t);
                        lemma_settled_type_canonical(inner);
                        lemma_list_canonical(normalized_type(inner));
                    },
                    None => {
                        match type_alias(t2) {
                            Some(canonical) => {
                                lemma_alias_canonical(t2);
                            },
                            None => {
                                lemma_lowercase_plain(t2);
                                lemma_plain_type_fixed(t2);
                            },
                        }
                    },
                }
            },
        }
    }
}

/// An ASCII type spelling without uppercase letters is settled.
pub proof fn lemma_lowercase_type_settled(t: Seq<char>)
    requires
        plain_lower(t),
    ensures
        settled_type(t),
    decreases t.len(),
{
    let t0 = trim(t);
    lemma_trim_shape(t);
    let (a, b) = choose|a: int, b: int|
        0 <= a <= b <= t.len() && trim(t) == #[trigger] t.subrange(a, b);
    lemma_plain_subrange(t, a, b);
    if t0.len() > 0 {
        reveal_strlit("Optional[");
        if starts_with(t0, "Optional["@) {
            assert(t0.subrange(0, 9)[0] == t0[0]);
        }
        assert(unwrap_optional(t0) == t0);
        if contains_seq(t0, " | "@) {
            lemma_union_arm_shape(t0, 0);
        }
        match reduce_union(t0) {
            None => {},
            Some(t2) => {
                match container_inner(t2) {
                    Some(inner) => {
                        reveal_strlit("List[");
                        reveal_strlit("Vec<");
                        reveal_strlit("list[");
                        reveal_strlit("]");
                        if starts_with(t2, "List["@) {
                            assert(t2.subrange(0, 5)[0] == t2[0]);
                        }
                        if starts_with(t2, "Vec<"@) {
                            assert(t2.subrange(0, 4)[0] == t2[0]);
                        }
                        lemma_bracketed(t2, "list["@, "]"@);
                        let body = t2.subrange(5, t2.len() - 1);
                        lemma_plain_subrange(t2, 5, t2.len() - 1);
                        lemma_trim_shape(body);
                        let (c, d) = choose|c: int, d: int|
                            0 <= c <= d <= body.len() && trim(body) == #[trigger] body.subrange(
                                c,
                                d,
                            );
                        lemma_plain_subrange(body, c, d);
                        lemma_container_inner_shorter(t);
                        lemma_lowercase_type_settled(inner);
                    },
                    None => {},
                }
            },
        }
    }
}

/// Normalizing a type spelling is idempotent on settled spellings: the
/// normal form of a normal form is that normal form. Settled are the
/// spellings built from the known scalars, `Optional`, unions and
/// containers, and besides them those whose unrecognized part is trimmed
/// ASCII without uppercase letters; every ASCII spelling without uppercase
/// letters is among them.
pub proof fn lemma_normalize_type_idempotent(t: Seq<char>)
    requires
        settled_type(t) || plain_lower(t),
    ensures
        normalized_type(normalized_type(t)) == normalized_type(t),
{
    if plain_lower(t) {
        lemma_lowercase_type_settled(t);
    }
    lemma_settled_type_canonical(t);
}

/// The tokens of a name are not empty and, set one behind the other, give
/// the name back.
pub proof fn lemma_camel_tokens_cover(s: Seq<char>)
    ensures
        join(camel_tokens(s), Seq::empty()) == s,
        forall|k: int| 0 <= k < camel_tokens(s).len() ==> (#[trigger] camel_tokens(s)[k]).len() > 0,
{
    lemma_camel_scan_covers(s, s.len() as int);
    let (done, open) = camel_scan(s, s.len() as int);
    assert(s.take(s.len() as int) =~= s);
    let none = Seq::<char>::empty();
    if open.len() > 0 {
        let tokens = done.push(open);
        assert(tokens.drop_last() =~= done);
        if done.len() == 0 {
            assert(join(done, none) =~= none);
            assert(join(tokens, none) =~= open);
        } else {
            assert(join(tokens, none) =~= join(done, none) + open);
        }
        assert forall|k: int| 0 <= k < tokens.len() implies (#[trigger] tokens[k]).len() > 0 by {
            if k < done.len() {
                assert(tokens[k] == done[k]);
            }
        }
    } else {
        assert(join(done, none) + open =~= join(done, none));
    }
}

/// The closed tokens of a scan are not empty and give, with the open one,
/// what was scanned; past the first character a token is open.
proof fn lemma_camel_scan_covers(s: Seq<char>, n: int)
    requires
        0 <= n <= s.len(),
    ensures
        join(camel_scan(s, n).0, Seq::empty()) + camel_scan(s, n).1 == s.take(n),
        forall|k: int|
            0 <= k < camel_scan(s, n).0.len() ==> (#[trigger] camel_scan(s, n).0[k]).len() > 0,
        n > 0 ==> camel_scan(s, n).1.len() > 0,
    decreases n,
{
    let none = Seq::<char>::empty();
    if n > 0 {
        lemma_camel_scan_covers(s, n - 1);
        let (done, open) = camel_scan(s, n - 1);
        let c = s[n - 1];
        assert(s.take(n) =~= s.take(n - 1).push(c));
        if camel_boundary(s, n - 1) {
            let closed = done.push(open);
            assert(closed.drop_last() =~= done);
            if done.len() == 0 {
                assert(join(done, none) =~= none);
                assert(join(closed, none) =~= open);
            } else {
                assert(join(closed, none) =~= join(done, none) + open);
            }
            assert(join(closed, none) + seq![c] =~= s.take(n));
            assert forall|k: int| 0 <= k < closed.len() implies (#[trigger] closed[k]).len() > 0 by {
                if k < done.len() {
                    assert(closed[k] == done[k]);
                }
            }
        } else {
            assert(join(done, none) + open.push(c) =~= s.take(n));
        }
    } else {
        assert(join(camel_scan(s, 0).0, none) + camel_scan(s, 0).1 =~= s.take(0));
    }
}

/// The pieces of a split, joined by the separator again, give the text
/// back.
pub proof fn lemma_split_char_joins(s: Seq<char>, sep: char)
    ensures
        split_char(s, sep).len() > 0,
        join(split_char(s, sep), seq![sep]) == s,
    decreases s.len(),
{
    let by = seq![sep];
    let none = Seq::<char>::empty();
    if s.len() == 0 {
        assert(join(seq![none], by) =~= s);
    } else {
        lemma_split_char_joins(s.drop_last(), sep);
        let before = split_char(s.drop_last(), sep);
        let all = split_char(s, sep);
        assert(s =~= s.drop_last().push(s.last()));
        if s.last() == sep {
            assert(all.drop_last() =~= before);
            assert(join(all, by) =~= join(before, by) + by + none);
        } else {
            let grown = before.last().push(s.last());
            assert(all.last() == grown);
            if before.len() == 1 {
                assert(join(all, by) =~= grown);
                assert(join(before, by) == before[0]);
            } else {
                assert(all.drop_last() =~= before.drop_last());
                assert(join(all, by) =~= join(before.drop_last(), by) + by + grown);
                assert(join(before, by) =~= join(before.drop_last(), by) + by + before.last());
            }
        }
    }
}

/// The words of a text are not empty and hold no white space.
pub proof fn lemma_words_shape(s: Seq<char>)
    ensures
        forall|k: int|
            0 <= k < words(s).len() ==> (#[trigger] words(s)[k]).len() > 0 && forall|i: int|
                0 <= i < words(s)[k].len() ==> !is_space(#[trigger] words(s)[k][i]),
{
    lemma_word_scan_shape(s, s.len() as int);
    let (done, open) = word_scan(s, s.len() as int);
    if open.len() > 0 {
        let all = done.push(open);
        assert forall|k: int| 0 <= k < all.len() implies (#[trigger] all[k]).len() > 0 && forall|
            i: int,
        | 0 <= i < all[k].len() ==> !is_space(#[trigger] all[k][i]) by {
            if k < done.len() {
                assert(all[k] == done[k]);
            }
        }
    }
}

/// The words of a scan, the open one too, hold no white space, and the
/// closed ones are not empty.
proof fn lemma_word_scan_shape(s: Seq<char>, n: int)
    requires
        0 <= n <= s.len(),
    ensures
        forall|i: int|
            0 <= i < word_scan(s, n).1.len() ==> !is_space(#[trigger] word_scan(s, n).1[i]),
        forall|k: int|
            0 <= k < word_scan(s, n).0.len() ==> (#[trigger] word_scan(s, n).0[k]).len() > 0
                && forall|i: int|
                0 <= i < word_scan(s, n).0[k].len() ==> !is_space(#[trigger] word_scan(s, n).0[k][i]),
    decreases n,
{
    if n > 0 {
        lemma_word_scan_shape(s, n - 1);
        let (done, open) = word_scan(s, n - 1);
        if is_space(s[n - 1]) && open.len() > 0 {
            let closed = done.push(open);
            assert forall|k: int| 0 <= k < closed.len() implies (#[trigger] closed[k]).len() > 0
                && forall|i: int| 0 <= i < closed[k].len() ==> !is_space(#[trigger] closed[k][i]) by {
                if k < done.len() {
                    assert(closed[k] == done[k]);
                }
            }
        }
    }
}

/// Where the token of position `k` starts: behind the tokens before it.
pub open spec fn token_start(tokens: Seq<Seq<char>>, k: int) -> int
    decreases k,
{
    if k <= 0 {
        0
    } else {
        token_start(tokens, k - 1) + tokens[k - 1].len()
    }
}

/// The tokens of a name are cut exactly at its token boundaries: a new
/// token starts at a position if and only if the position is a boundary.
pub proof fn lemma_camel_tokens_cut_at_boundaries(s: Seq<char>)
    ensures
        forall|p: int|
            0 < p < s.len() ==> (#[trigger] camel_boundary(s, p) <==> exists|k: int|
                0 < k < camel_tokens(s).len() && #[trigger] token_start(camel_tokens(s), k) == p),
{
    if s.len() > 0 {
        lemma_camel_scan_cuts(s, s.len() as int);
        lemma_camel_scan_covers(s, s.len() as int);
        let (done, open) = camel_scan(s, s.len() as int);
        assert(camel_tokens(s) == done.push(open));
    }
}

/// The start of a token depends on the tokens before it alone, and later
/// tokens start no earlier.
proof fn lemma_token_start(a: Seq<Seq<char>>, b: Seq<Seq<char>>, k: int)
    requires
        0 <= k <= a.len(),
        k <= b.len(),
        forall|j: int| 0 <= j < k ==> a[j] == b[j],
    ensures
        token_start(a, k) == token_start(b, k),
        forall|j: int| 0 <= j <= k ==> #[trigger] token_start(a, j) <= token_start(a, k),
    decreases k,
{
    if k > 0 {
        lemma_token_start(a, b, k - 1);
        assert forall|j: int| 0 <= j <= k implies #[trigger] token_start(a, j) <= token_start(a, k) by {
            if j < k {
                assert(token_start(a, j) <= token_start(a, k - 1));
            }
        }
    }
}

/// The tokens of a scan, the open one last, start at the boundaries within
/// what was scanned and nowhere else.
proof fn lemma_camel_scan_cuts(s: Seq<char>, n: int)
    requires
        1 <= n <= s.len(),
    ensures
        ({
            let all = camel_scan(s, n).0.push(camel_scan(s, n).1);
            &&& token_start(all, all.len() as int) == n
            &&& forall|p: int|
                0 < p < n ==> (#[trigger] camel_boundary(s, p) <==> exists|k: int|
                    0 < k < all.len() && #[trigger] token_start(all, k) == p)
        }),
    decreases n,
{
    let (done, open) = camel_scan(s, n);
    let all = done.push(open);
    if n == 1 {
        assert(camel_scan(s, 0).0 =~= Seq::<Seq<char>>::empty());
        assert(!camel_boundary(s, 0));
        assert(open =~= seq![s[0]]);
        assert(all.len() == 1);
        assert(token_start(all, 1) == token_start(all, 0) + all[0].len());
    } else {
        lemma_camel_scan_cuts(s, n - 1);
        lemma_camel_scan_covers(s, n - 1);
        let (done0, open0) = camel_scan(s, n - 1);
        let all0 = done0.push(open0);
        let m = all0.len() as int;
        if camel_boundary(s, n - 1) {
            assert(done =~= all0);
            assert(all.len() == m + 1);
            lemma_token_start(all, all0, m);
            assert(token_start(all, m + 1) == token_start(all, m) + all[m].len());
            assert forall|p: int| 0 < p < n implies (#[trigger] camel_boundary(s, p) <==> exists|
                k: int,
            | 0 < k < all.len() && #[trigger] token_start(all, k) == p) by {
                if p < n - 1 {
                    if camel_boundary(s, p) {
                        let k = choose|k: int| 0 < k < m && #[trigger] token_start(all0, k) == p;
                        lemma_token_start(all, all0, k);
                    }
                    if exists|k: int| 0 < k < all.len() && #[trigger] token_start(all, k) == p {
                        let k = choose|k: int|
                            0 < k < all.len() && #[trigger] token_start(all, k) == p;
                        lemma_token_start(all, all0, if k < m { k } else { m });
                        assert(k < m);
                    }
                } else {
                    assert(token_start(all, m) == p);
                }
            }
        } else {
            assert(done =~= done0);
            assert(open =~= open0.push(s[n - 1]));
            assert(all.len() == m);
            lemma_token_start(all, all0, m - 1);
            assert(token_start(all, m) == token_start(all, m - 1) + all[m - 1].len());
            assert(token_start(all0, m) == token_start(all0, m - 1) + all0[m - 1].len());
            assert forall|p: int| 0 < p < n implies (#[trigger] camel_boundary(s, p) <==> exists|
                k: int,
            | 0 < k < all.len() && #[trigger] token_start(all, k) == p) by {
                if camel_boundary(s, p) {
                    let k = choose|k: int| 0 < k < m && #[trigger] token_start(all0, k) == p;
                    lemma_token_start(all, all0, k);
                }
                if exists|k: int| 0 < k < all.len() && #[trigger] token_start(all, k) == p {
                    let k = choose|k: int| 0 < k < all.len() && #[trigger] token_start(all, k) == p;
                    lemma_token_start(all, all0, k);
                    assert(token_start(all0, k) <= token_start(all0, m - 1)) by {
                        lemma_token_start(all0, all0, m - 1);
                    }
                    assert(p < n - 1);
                }
            }
        }
    }
}

/// Whether two names overlap does not depend on their order.
pub proof fn lemma_names_overlap_symmetric(a: Seq<char>, b: Seq<char>)
    ensures
        names_overlapping(a, b) == names_overlapping(b, a),
{
}

} // verus!
