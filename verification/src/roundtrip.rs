//! Writing a parsed signature back as text and parsing it again gives the
//! same fields.

use crate::matching::{
    compatible_signatures, parsed_field, parsed_fields, parsed_signature, split_char,
};
use crate::text::{
    first_index_from, is_space, is_trimmed, join, lemma_first_index_from, lemma_trim_shape,
    occurs_at, trim, trim_end, trim_start,
};
use vstd::prelude::*;

verus! {

/// A field written as `name: type`.
pub open spec fn rendered_field(field: (Seq<char>, Seq<char>)) -> Seq<char> {
    field.0 + ": "@ + field.1
}

/// The fields written as `name: type`, in order.
pub open spec fn rendered_fields(fields: Seq<(Seq<char>, Seq<char>)>) -> Seq<Seq<char>> {
    Seq::new(fields.len(), |k: int| rendered_field(fields[k]))
}

/// The fields written as a signature text: `name: type, name: type`.
pub open spec fn rendered_signature(fields: Seq<(Seq<char>, Seq<char>)>) -> Seq<char> {
    join(rendered_fields(fields), ", "@)
}

/// What every parsed field is like: name and type are trimmed, neither
/// holds a comma, and the name holds no colon.
pub open spec fn field_shape(field: (Seq<char>, Seq<char>)) -> bool {
    &&& is_trimmed(field.0)
    &&& is_trimmed(field.1)
    &&& !field.0.contains(':')
    &&& !field.0.contains(',')
    &&& !field.1.contains(',')
}

/// A colon stands where the one-character text `:` occurs.
proof fn lemma_colon_at(p: Seq<char>, i: int)
    ensures
        occurs_at(p, ":"@, i) <==> (0 <= i < p.len() && p[i] == ':'),
{
    reveal_strlit(":");
    if 0 <= i < p.len() {
        assert(p.subrange(i, i + 1)[0] == p[i]);
        if p[i] == ':' {
            assert(p.subrange(i, i + 1) =~= ":"@);
        }
    }
}

/// A stretch of a text without a character lacks it too.
proof fn lemma_subrange_lacks(s: Seq<char>, a: int, b: int, c: char)
    requires
        0 <= a <= b <= s.len(),
        !s.contains(c),
    ensures
        !s.subrange(a, b).contains(c),
{
    if s.subrange(a, b).contains(c) {
        let i = choose|i: int| 0 <= i < b - a && s.subrange(a, b)[i] == c;
        assert(s[a + i] == c);
    }
}

/// Trimming brings no character in.
proof fn lemma_trim_lacks(s: Seq<char>, c: char)
    requires
        !s.contains(c),
    ensures
        !trim(s).contains(c),
{
    lemma_trim_shape(s);
    let (a, b) = choose|a: int, b: int| 0 <= a <= b <= s.len() && trim(s) == #[trigger] s.subrange(a, b);
    lemma_subrange_lacks(s, a, b, c);
}

/// No piece of a split holds the separator.
proof fn lemma_split_pieces_lack_separator(s: Seq<char>, sep: char)
    ensures
        split_char(s, sep).len() > 0,
        forall|k: int| 0 <= k < split_char(s, sep).len() ==> !(#[trigger] split_char(s, sep)[k]).contains(
            sep,
        ),
    decreases s.len(),
{
    if s.len() > 0 {
        lemma_split_pieces_lack_separator(s.drop_last(), sep);
        let before = split_char(s.drop_last(), sep);
        let all = split_char(s, sep);
        assert forall|k: int| 0 <= k < all.len() implies !(#[trigger] all[k]).contains(sep) by {
            if s.last() == sep {
                if k < before.len() {
                    assert(all[k] == before[k]);
                }
            } else {
                if k < before.len() - 1 {
                    assert(all[k] == before[k]);
                } else {
                    let grown = before.last().push(s.last());
                    if grown.contains(sep) {
                        let i = choose|i: int| 0 <= i < grown.len() && grown[i] == sep;
                        assert(before.last()[i] == sep);
                    }
                }
            }
        }
    }
}

/// A parsed field has the shape of a field, where the segment it was read
/// from holds no comma.
proof fn lemma_parsed_field_shape(segment: Seq<char>)
    requires
        !segment.contains(','),
        parsed_field(segment) is Some,
    ensures
        field_shape(parsed_field(segment)->0),
{
    let p = trim(segment);
    lemma_trim_lacks(segment, ',');
    let i = first_index_from(p, ":"@, 0);
    lemma_first_index_from(p, ":"@, 0);
    let left = p.take(i);
    let right = p.skip(i + 1);
    assert(left =~= p.subrange(0, i));
    assert(right =~= p.subrange(i + 1, p.len() as int));
    lemma_subrange_lacks(p, 0, i, ',');
    lemma_subrange_lacks(p, i + 1, p.len() as int, ',');
    lemma_trim_lacks(left, ',');
    lemma_trim_lacks(right, ',');
    if left.contains(':') {
        let j = choose|j: int| 0 <= j < left.len() && left[j] == ':';
        lemma_colon_at(p, j);
    }
    lemma_trim_lacks(left, ':');
    lemma_trim_shape(left);
    lemma_trim_shape(right);
}

/// Every parsed field has the shape of a field.
pub proof fn lemma_parsed_fields_shape(segments: Seq<Seq<char>>)
    requires
        forall|k: int| 0 <= k < segments.len() ==> !(#[trigger] segments[k]).contains(','),
    ensures
        forall|k: int|
            0 <= k < parsed_fields(segments).len() ==> field_shape(
                #[trigger] parsed_fields(segments)[k],
            ),
    decreases segments.len(),
{
    if segments.len() > 0 {
        assert forall|k: int| 0 <= k < segments.drop_last().len() implies !(#[trigger] segments.drop_last()[k]).contains(
            ',',
        ) by {
            assert(segments.drop_last()[k] == segments[k]);
        }
        lemma_parsed_fields_shape(segments.drop_last());
        assert(!segments[segments.len() - 1].contains(','));
        if parsed_field(segments.last()) is Some {
            lemma_parsed_field_shape(segments.last());
        }
        let before = parsed_fields(segments.drop_last());
        let all = parsed_fields(segments);
        assert forall|k: int| 0 <= k < all.len() implies field_shape(#[trigger] all[k]) by {
            if k < before.len() {
                assert(all[k] == before[k]);
            }
        }
    }
}

/// Splitting a text with a tail that holds no separator: the tail goes to
/// the last piece.
proof fn lemma_split_tail(u: Seq<char>, v: Seq<char>, sep: char)
    requires
        !v.contains(sep),
    ensures
        split_char(u + v, sep) == split_char(u, sep).drop_last().push(split_char(u, sep).last() + v),
    decreases v.len(),
{
    lemma_split_pieces_lack_separator(u, sep);
    let su = split_char(u, sep);
    if v.len() == 0 {
        assert(u + v =~= u);
        assert(su.last() + v =~= su.last());
        assert(su.drop_last().push(su.last()) =~= su);
    } else {
        let init = v.drop_last();
        assert(!init.contains(sep)) by {
            if init.contains(sep) {
                let i = choose|i: int| 0 <= i < init.len() && init[i] == sep;
                assert(v[i] == sep);
            }
        }
        lemma_split_tail(u, init, sep);
        assert((u + v).drop_last() =~= u + init);
        assert((u + v).last() == v.last());
        assert(v[v.len() - 1] != sep);
        let before = split_char(u + init, sep);
        assert(before.last().push(v.last()) =~= su.last() + v);
        assert(before.drop_last() =~= su.drop_last());
    }
}

/// The segments as a split of the joined text shows them: the first as it
/// is, each other behind a space.
pub open spec fn spaced(segments: Seq<Seq<char>>) -> Seq<Seq<char>> {
    Seq::new(
        segments.len(),
        |k: int|
            if k == 0 {
                segments[0]
            } else {
                " "@ + segments[k]
            },
    )
}

/// Splitting what was joined by comma and space gives the segments back,
/// all but the first behind a space.
proof fn lemma_split_joined(segments: Seq<Seq<char>>)
    requires
        segments.len() > 0,
        forall|k: int| 0 <= k < segments.len() ==> !(#[trigger] segments[k]).contains(','),
    ensures
        split_char(join(segments, ", "@), ',') == spaced(segments),
    decreases segments.len(),
{
    reveal_strlit(", ");
    reveal_strlit(" ");
    let none = Seq::<char>::empty();
    assert(split_char(none, ',') =~= seq![none]);
    if segments.len() == 1 {
        assert(!segments[0].contains(','));
        lemma_split_tail(none, segments[0], ',');
        assert(none + segments[0] =~= segments[0]);
        assert(spaced(segments) =~= seq![segments[0]]);
        assert(seq![none].drop_last().push(seq![none].last() + segments[0]) =~= seq![segments[0]]);
    } else {
        let init = segments.drop_last();
        assert forall|k: int| 0 <= k < init.len() implies !(#[trigger] init[k]).contains(',') by {
            assert(init[k] == segments[k]);
        }
        lemma_split_joined(init);
        let head = join(init, ", "@);
        let tail = " "@ + segments.last();
        assert(!segments[segments.len() - 1].contains(','));
        assert(!tail.contains(',')) by {
            if tail.contains(',') {
                let i = choose|i: int| 0 <= i < tail.len() && tail[i] == ',';
                assert(segments.last()[i - 1] == ',');
            }
        }
        assert(join(segments, ", "@) =~= head.push(',') + tail);
        assert(head.push(',').drop_last() =~= head);
        assert(split_char(head.push(','), ',') == spaced(init).push(none));
        lemma_split_tail(head.push(','), tail, ',');
        assert(spaced(init).push(none).drop_last() =~= spaced(init));
        assert(none + tail =~= tail);
        assert(spaced(init).push(tail) =~= spaced(segments));
    }
}

/// Trimming takes the white space off both ends of a text whose middle is
/// trimmed and not empty.
proof fn lemma_trim_padded(a: Seq<char>, t: Seq<char>, b: Seq<char>)
    requires
        forall|i: int| 0 <= i < a.len() ==> is_space(#[trigger] a[i]),
        forall|i: int| 0 <= i < b.len() ==> is_space(#[trigger] b[i]),
        is_trimmed(t),
        t.len() > 0,
    ensures
        trim(a + t + b) == t,
{
    lemma_trim_start_padded(a, t + b);
    assert(a + t + b =~= a + (t + b));
    assert((t + b)[0] == t[0]);
    lemma_trim_end_padded(t, b);
}

/// Trimming the start takes leading white space off.
proof fn lemma_trim_start_padded(a: Seq<char>, rest: Seq<char>)
    requires
        forall|i: int| 0 <= i < a.len() ==> is_space(#[trigger] a[i]),
        rest.len() > 0,
        !is_space(rest[0]),
    ensures
        trim_start(a + rest) == rest,
    decreases a.len(),
{
    if a.len() == 0 {
        assert(a + rest =~= rest);
    } else {
        assert((a + rest)[0] == a[0]);
        assert((a + rest).drop_first() =~= a.drop_first() + rest);
        assert forall|i: int| 0 <= i < a.drop_first().len() implies is_space(
            #[trigger] a.drop_first()[i],
        ) by {
            assert(a.drop_first()[i] == a[i + 1]);
        }
        lemma_trim_start_padded(a.drop_first(), rest);
    }
}

/// Trimming the end takes trailing white space off.
proof fn lemma_trim_end_padded(t: Seq<char>, b: Seq<char>)
    requires
        forall|i: int| 0 <= i < b.len() ==> is_space(#[trigger] b[i]),
        t.len() > 0,
        !is_space(t.last()),
    ensures
        trim_end(t + b) == t,
    decreases b.len(),
{
    if b.len() == 0 {
        assert(t + b =~= t);
    } else {
        assert((t + b).last() == b[b.len() - 1]);
        assert((t + b).drop_last() =~= t + b.drop_last());
        assert forall|i: int| 0 <= i < b.drop_last().len() implies is_space(
            #[trigger] b.drop_last()[i],
        ) by {
            assert(b.drop_last()[i] == b[i]);
        }
        lemma_trim_end_padded(t, b.drop_last());
    }
}

/// A written field, with or without white space before it, parses as the
/// field.
proof fn lemma_parse_rendered_field(field: (Seq<char>, Seq<char>), lead: Seq<char>)
    requires
        field_shape(field),
        forall|i: int| 0 <= i < lead.len() ==> is_space(#[trigger] lead[i]),
    ensures
        parsed_field(lead + rendered_field(field)) == Some(field),
{
    reveal_strlit(": ");
    reveal_strlit(" ");
    reveal_strlit(":");
    let name = field.0;
    let ty = field.1;
    let none = Seq::<char>::empty();
    let space = seq![' '];
    let colon = seq![':'];
    let rest = if ty.len() > 0 {
        space + ty
    } else {
        none
    };
    let trail = if ty.len() > 0 {
        none
    } else {
        space
    };
    let core = name + colon + rest;
    assert(lead + rendered_field(field) =~= lead + core + trail);
    assert(core[name.len() as int] == ':');
    assert(is_trimmed(core)) by {
        if name.len() > 0 {
            assert(core[0] == name[0]);
        } else {
            assert(core[0] == ':');
        }
        if ty.len() > 0 {
            assert(core.last() == ty.last());
        } else {
            assert(core.last() == ':');
        }
    }
    lemma_trim_padded(lead, core, trail);
    let p = trim(lead + rendered_field(field));
    assert(p == core);
    lemma_first_index_from(core, ":"@, 0);
    let i = first_index_from(core, ":"@, 0);
    lemma_colon_at(core, name.len() as int);
    lemma_colon_at(core, i);
    if 0 <= i < name.len() {
        assert(core[i] == name[i]);
        assert(name.contains(':'));
    }
    assert(i == name.len());
    assert(core.take(i) =~= name);
    assert(core.skip(i + 1) =~= rest);
    crate::text::lemma_trim_fixed(name);
    if ty.len() > 0 {
        lemma_trim_padded(space, ty, none);
        assert(space + ty + none =~= rest);
    } else {
        assert(trim(none) =~= none);
        assert(ty =~= none);
    }
}

/// The written fields, as a split shows them, parse as the fields.
proof fn lemma_parse_spaced(fields: Seq<(Seq<char>, Seq<char>)>)
    requires
        forall|k: int| 0 <= k < fields.len() ==> field_shape(#[trigger] fields[k]),
    ensures
        parsed_fields(spaced(rendered_fields(fields))) == fields,
    decreases fields.len(),
{
    reveal_strlit(" ");
    let all = spaced(rendered_fields(fields));
    if fields.len() == 0 {
        assert(parsed_fields(all) =~= fields);
    } else {
        let init = fields.drop_last();
        assert forall|k: int| 0 <= k < init.len() implies field_shape(#[trigger] init[k]) by {
            assert(init[k] == fields[k]);
        }
        lemma_parse_spaced(init);
        assert(all.drop_last() =~= spaced(rendered_fields(init)));
        let last = fields.last();
        assert(field_shape(fields[fields.len() - 1]));
        if fields.len() == 1 {
            lemma_parse_rendered_field(last, Seq::empty());
            assert(Seq::<char>::empty() + rendered_field(last) =~= rendered_field(last));
        } else {
            lemma_parse_rendered_field(last, " "@);
        }
        assert(parsed_field(all.last()) == Some(last));
        assert(init.push(last) =~= fields);
    }
}

/// A text that holds a character other than white space is not blank.
proof fn lemma_has_nonspace(s: Seq<char>, i: int)
    requires
        0 <= i < s.len(),
        !is_space(s[i]),
    ensures
        trim(s).len() > 0,
{
    lemma_trim_start_keeps(s, i);
    let u = trim_start(s);
    let j = choose|j: int| 0 <= j < u.len() && !is_space(#[trigger] u[j]);
    lemma_trim_end_keeps(u, j);
}

/// Trimming the start keeps a character other than white space.
proof fn lemma_trim_start_keeps(s: Seq<char>, i: int)
    requires
        0 <= i < s.len(),
        !is_space(s[i]),
    ensures
        exists|j: int| 0 <= j < trim_start(s).len() && !is_space(#[trigger] trim_start(s)[j]),
    decreases s.len(),
{
    if is_space(s[0]) {
        assert(s.drop_first()[i - 1] == s[i]);
        lemma_trim_start_keeps(s.drop_first(), i - 1);
        let u = trim_start(s.drop_first());
        let j = choose|j: int| 0 <= j < u.len() && !is_space(#[trigger] u[j]);
        assert(!is_space(trim_start(s)[j]));
    } else {
        assert(!is_space(trim_start(s)[0]));
    }
}

/// Trimming the end keeps a character other than white space.
proof fn lemma_trim_end_keeps(s: Seq<char>, i: int)
    requires
        0 <= i < s.len(),
        !is_space(s[i]),
    ensures
        trim_end(s).len() > 0,
    decreases s.len(),
{
    if is_space(s.last()) {
        assert(s.drop_last()[i] == s[i]);
        lemma_trim_end_keeps(s.drop_last(), i);
    }
}

/// Fields of the shape that parsing gives are read back unchanged from
/// their text form.
pub proof fn lemma_parse_rendered(fields: Seq<(Seq<char>, Seq<char>)>)
    requires
        forall|k: int| 0 <= k < fields.len() ==> field_shape(#[trigger] fields[k]),
    ensures
        parsed_signature(rendered_signature(fields)) == fields,
{
    let text = rendered_signature(fields);
    let segments = rendered_fields(fields);
    if fields.len() == 0 {
        assert(text =~= Seq::<char>::empty());
        assert(trim(text) =~= Seq::<char>::empty());
        assert(fields =~= Seq::empty());
    } else {
        reveal_strlit(": ");
        reveal_strlit(", ");
        assert forall|k: int| 0 <= k < segments.len() implies !(#[trigger] segments[k]).contains(
            ',',
        ) by {
            let f = fields[k];
            assert(field_shape(f));
            let seg = segments[k];
            if seg.contains(',') {
                let i = choose|i: int| 0 <= i < seg.len() && seg[i] == ',';
                if i < f.0.len() {
                    assert(f.0[i] == ',');
                } else if i >= f.0.len() + 2 {
                    assert(f.1[i - f.0.len() - 2] == ',');
                }
            }
        }
        lemma_split_joined(segments);
        lemma_parse_spaced(fields);
        lemma_joined_starts_with_first(segments, ", "@);
        let first = segments[0];
        assert(first[fields[0].0.len() as int] == ':');
        assert(text[fields[0].0.len() as int] == ':');
        lemma_has_nonspace(text, fields[0].0.len() as int);
    }
}

/// A joined text begins with its first part.
proof fn lemma_joined_starts_with_first(parts: Seq<Seq<char>>, sep: Seq<char>)
    requires
        parts.len() > 0,
    ensures
        join(parts, sep).len() >= parts[0].len(),
        forall|i: int| 0 <= i < parts[0].len() ==> #[trigger] join(parts, sep)[i] == parts[0][i],
    decreases parts.len(),
{
    if parts.len() > 1 {
        lemma_joined_starts_with_first(parts.drop_last(), sep);
        assert(parts.drop_last()[0] == parts[0]);
    }
}

/// Round trip: writing the fields of a parsed signature back as text and
/// parsing that text gives the same fields.
pub proof fn lemma_signature_round_trip(sig: Seq<char>)
    ensures
        parsed_signature(rendered_signature(parsed_signature(sig))) == parsed_signature(sig),
{
    let fields = parsed_signature(sig);
    if trim(sig).len() == 0 {
        assert(fields =~= Seq::empty());
    } else {
        lemma_split_pieces_lack_separator(sig, ',');
        lemma_parsed_fields_shape(split_char(sig, ','));
    }
    lemma_parse_rendered(fields);
}

/// A signature without fields, the empty text among them, is satisfied by
/// every signature.
pub proof fn lemma_blank_signature_compatible(a: Seq<char>, b: Seq<char>)
    ensures
        parsed_signature(a).len() == 0 ==> compatible_signatures(a, b),
        a.len() == 0 ==> compatible_signatures(a, b),
{
    if a.len() == 0 {
        assert(trim(a) =~= a);
    }
}

} // verus!
