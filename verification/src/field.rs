//! What the header fields share: their names, the frame of a name, a value
//! and CR LF, and values made of repeated components.
use vstd::prelude::*;
use vstd::slice::{slice_subrange, slice_to_vec};
use crate::error::ParseError;
use crate::scan::{
    append, ascii_lower, byte_at, crlf, crlf_at, group_skip, match_ci, same_up_to_case, starts_ci,
    starts_crlf, starts_with_byte,
};
use crate::traits::parsed;
use crate::types::Component;

verus! {

broadcast use group_skip;

/// The names of the header fields with a fixed name.
#[derive(Debug, Clone, Copy, PartialEq, Eq, Structural)]
pub enum Name {
    Date,
    From,
    Sender,
    ReplyTo,
    To,
    Cc,
    Bcc,
    MessageId,
    InReplyTo,
    References,
    Subject,
    Comments,
    Keywords,
    ResentDate,
    ResentFrom,
    ResentSender,
    ResentTo,
    ResentCc,
    ResentBcc,
    ResentMessageId,
    Received,
    ReturnPath,
}

/// A field name as it is written out, colon included.  Parsing compares it
/// without regard to the case of letters.
pub open spec fn name_bytes(name: Name) -> Seq<u8> {
    match name {
        Name::Date => seq![68u8, 97, 116, 101, 58],
        Name::From => seq![70u8, 114, 111, 109, 58],
        Name::Sender => seq![83u8, 101, 110, 100, 101, 114, 58],
        Name::ReplyTo => seq![82u8, 101, 112, 108, 121, 45, 84, 111, 58],
        Name::To => seq![84u8, 111, 58],
        Name::Cc => seq![67u8, 99, 58],
        Name::Bcc => seq![66u8, 99, 99, 58],
        Name::MessageId => seq![77u8, 101, 115, 115, 97, 103, 101, 45, 73, 68, 58],
        Name::InReplyTo => seq![73u8, 110, 45, 82, 101, 112, 108, 121, 45, 84, 111, 58],
        Name::References => seq![82u8, 101, 102, 101, 114, 101, 110, 99, 101, 115, 58],
        Name::Subject => seq![83u8, 117, 98, 106, 101, 99, 116, 58],
        Name::Comments => seq![67u8, 111, 109, 109, 101, 110, 116, 115, 58],
        Name::Keywords => seq![75u8, 101, 121, 119, 111, 114, 100, 115, 58],
        Name::ResentDate => seq![82u8, 101, 115, 101, 110, 116, 45, 68, 97, 116, 101, 58],
        Name::ResentFrom => seq![82u8, 101, 115, 101, 110, 116, 45, 70, 114, 111, 109, 58],
        Name::ResentSender => seq![82u8, 101, 115, 101, 110, 116, 45, 83, 101, 110, 100, 101, 114, 58],
        Name::ResentTo => seq![82u8, 101, 115, 101, 110, 116, 45, 84, 111, 58],
        Name::ResentCc => seq![82u8, 101, 115, 101, 110, 116, 45, 67, 99, 58],
        Name::ResentBcc => seq![82u8, 101, 115, 101, 110, 116, 45, 66, 99, 99, 58],
        Name::ResentMessageId => seq![82u8, 101, 115, 101, 110, 116, 45, 77, 101, 115, 115, 97, 103, 101, 45, 73, 68, 58],
        Name::Received => seq![82u8, 101, 99, 101, 105, 118, 101, 100, 58],
        Name::ReturnPath => seq![82u8, 101, 116, 117, 114, 110, 45, 80, 97, 116, 104, 58],
    }
}

pub fn name_vec(name: Name) -> (v: Vec<u8>)
    ensures
        v@ == name_bytes(name),
{
    match name {
        Name::Date => vec![68u8, 97, 116, 101, 58],
        Name::From => vec![70u8, 114, 111, 109, 58],
        Name::Sender => vec![83u8, 101, 110, 100, 101, 114, 58],
        Name::ReplyTo => vec![82u8, 101, 112, 108, 121, 45, 84, 111, 58],
        Name::To => vec![84u8, 111, 58],
        Name::Cc => vec![67u8, 99, 58],
        Name::Bcc => vec![66u8, 99, 99, 58],
        Name::MessageId => vec![77u8, 101, 115, 115, 97, 103, 101, 45, 73, 68, 58],
        Name::InReplyTo => vec![73u8, 110, 45, 82, 101, 112, 108, 121, 45, 84, 111, 58],
        Name::References => vec![82u8, 101, 102, 101, 114, 101, 110, 99, 101, 115, 58],
        Name::Subject => vec![83u8, 117, 98, 106, 101, 99, 116, 58],
        Name::Comments => vec![67u8, 111, 109, 109, 101, 110, 116, 115, 58],
        Name::Keywords => vec![75u8, 101, 121, 119, 111, 114, 100, 115, 58],
        Name::ResentDate => vec![82u8, 101, 115, 101, 110, 116, 45, 68, 97, 116, 101, 58],
        Name::ResentFrom => vec![82u8, 101, 115, 101, 110, 116, 45, 70, 114, 111, 109, 58],
        Name::ResentSender => vec![82u8, 101, 115, 101, 110, 116, 45, 83, 101, 110, 100, 101, 114, 58],
        Name::ResentTo => vec![82u8, 101, 115, 101, 110, 116, 45, 84, 111, 58],
        Name::ResentCc => vec![82u8, 101, 115, 101, 110, 116, 45, 67, 99, 58],
        Name::ResentBcc => vec![82u8, 101, 115, 101, 110, 116, 45, 66, 99, 99, 58],
        Name::ResentMessageId => vec![82u8, 101, 115, 101, 110, 116, 45, 77, 101, 115, 115, 97, 103, 101, 45, 73, 68, 58],
        Name::Received => vec![82u8, 101, 99, 101, 105, 118, 101, 100, 58],
        Name::ReturnPath => vec![82u8, 101, 116, 117, 114, 110, 45, 80, 97, 116, 104, 58],
    }
}

/// Whether `input` starts with the field name, ignoring case.
pub fn name_at_start(input: &[u8], name: Name) -> (r: bool)
    ensures
        r == starts_ci(input@, name_bytes(name)),
        r ==> name_bytes(name).len() <= input@.len(),
{
    let lit = name_vec(name);
    match_ci(input, 0, lit.as_slice())
}

/// A field made of `name`, a value matched by the rule of `C`, and CR LF, as
/// a field with one value is parsed: `Eof` on empty input when `eof_first`,
/// then `NotFound` unless the name, a value and CR LF come in turn.
pub open spec fn field_parse<C: Component>(s: Seq<u8>, name: Seq<u8>, eof_first: bool) -> Result<
    (Seq<u8>, nat),
    ParseError,
> {
    if eof_first && s.len() == 0 {
        Err(ParseError::Eof)
    } else if !starts_ci(s, name) {
        Err(ParseError::NotFound)
    } else {
        let p = name.len();
        match C::rule(s.skip(p as int)) {
            Some(n) => if p + n <= s.len() && starts_crlf(s.skip((p + n) as int)) {
                Ok((s.subrange(p as int, (p + n) as int), p + n + 2))
            } else {
                Err(ParseError::NotFound)
            },
            None => Err(ParseError::NotFound),
        }
    }
}

pub fn parse_field<C: Component>(input: &[u8], name: Name, eof_first: bool) -> (r: Result<
    (C, &[u8]),
    ParseError,
>)
    ensures
        parsed(input@, r, field_parse::<C>(input@, name_bytes(name), eof_first)),
{
    if eof_first && input.len() == 0 {
        return Err(ParseError::Eof);
    }
    if !name_at_start(input, name) {
        return Err(ParseError::NotFound);
    }
    let p = name_vec(name).len();
    match C::scan(input, p) {
        Some(n) => {
            if crlf_at(input, p + n) {
                let bytes = slice_to_vec(slice_subrange(input, p, p + n));
                assert(bytes@ == input@.subrange(p as int, (p + n) as int));
                Ok((C::from_bytes(bytes), slice_subrange(input, p + n + 2, input.len())))
            } else {
                Err(ParseError::NotFound)
            }
        },
        None => Err(ParseError::NotFound),
    }
}

/// A field with one value as it is written out.
pub open spec fn field_stream(name: Name, v: Seq<u8>) -> Seq<u8> {
    name_bytes(name) + v + crlf()
}

pub fn append_crlf(out: &mut Vec<u8>)
    ensures
        final(out)@ == old(out)@ + crlf(),
{
    let nl: [u8; 2] = [13u8, 10];
    assert(nl@ == crlf());
    append(out, &nl);
}

pub fn append_name(out: &mut Vec<u8>, name: Name)
    ensures
        final(out)@ == old(out)@ + name_bytes(name),
{
    let lit = name_vec(name);
    append(out, lit.as_slice());
}

pub fn stream_field<C: Component>(name: Name, c: &C, out: &mut Vec<u8>) -> (n: usize)
    ensures
        final(out)@ == old(out)@ + field_stream(name, c@),
        n == field_stream(name, c@).len(),
{
    let start = out.len();
    append_name(out, name);
    append(out, c.as_bytes());
    append_crlf(out);
    assert(out@ =~= old(out)@ + field_stream(name, c@));
    out.len() - start
}

/// The values that the rule of `C` matches one after the other at the start
/// of `t`, as far as it matches.
pub open spec fn repeat<C: Component>(t: Seq<u8>) -> Seq<Seq<u8>>
    decreases t.len(),
{
    match C::rule(t) {
        Some(n) => if 0 < n <= t.len() {
            seq![t.take(n as int)] + repeat::<C>(t.skip(n as int))
        } else {
            seq![]
        },
        None => seq![],
    }
}

/// The number of bytes that `repeat` uses.
pub open spec fn repeat_len<C: Component>(t: Seq<u8>) -> nat
    decreases t.len(),
{
    match C::rule(t) {
        Some(n) => if 0 < n <= t.len() {
            n + repeat_len::<C>(t.skip(n as int))
        } else {
            0
        },
        None => 0,
    }
}

/// The views of a sequence of components.
pub open spec fn views<C: View<V = Seq<u8>>>(v: Seq<C>) -> Seq<Seq<u8>> {
    v.map_values(|c: C| c@)
}

pub fn parse_repeat<C: Component>(s: &[u8], i: usize) -> (r: (Vec<C>, usize))
    requires
        i <= s.len(),
    ensures
        views(r.0@) == repeat::<C>(s@.skip(i as int)),
        r.1 == repeat_len::<C>(s@.skip(i as int)),
        i + r.1 <= s.len(),
{
    let mut v: Vec<C> = Vec::new();
    let mut j = i;
    assert(views(v@) =~= seq![]);
    loop
        invariant
            i <= j <= s.len(),
            views(v@) + repeat::<C>(s@.skip(j as int)) == repeat::<C>(s@.skip(i as int)),
            (j - i) + repeat_len::<C>(s@.skip(j as int)) == repeat_len::<C>(s@.skip(i as int)),
        ensures
            i <= j <= s.len(),
            views(v@) == repeat::<C>(s@.skip(i as int)),
            (j - i) == repeat_len::<C>(s@.skip(i as int)),
        decreases s@.len() - j,
    {
        match C::scan(s, j) {
            Some(n) => {
                if n == 0 {
                    assert(views(v@) + seq![] =~= views(v@));
                    break ;
                }
                let bytes = slice_to_vec(slice_subrange(s, j, j + n));
                let c = C::from_bytes(bytes);
                let ghost old_v = v@;
                proof {
                    assert(s@.skip(j as int).take(n as int) =~= s@.subrange(j as int, (j + n) as int));
                    assert(s@.skip(j as int).skip(n as int) == s@.skip(j + n));
                }
                v.push(c);
                proof {
                    assert(views(v@) =~= views(old_v).push(c@));
                    assert(views(old_v) + repeat::<C>(s@.skip(j as int)) =~= views(v@) + repeat::<C>(
                        s@.skip(j + n),
                    ));
                }
                j = j + n;
            },
            None => {
                assert(views(v@) + seq![] =~= views(v@));
                break ;
            },
        }
    }
    (v, j - i)
}

/// The byte sequences `ss` one after the other.
pub open spec fn concat(ss: Seq<Seq<u8>>) -> Seq<u8>
    decreases ss.len(),
{
    if ss.len() == 0 {
        seq![]
    } else {
        concat(ss.drop_last()) + ss.last()
    }
}

/// The byte sequences `ss` with a comma between each two.
pub open spec fn join_commas(ss: Seq<Seq<u8>>) -> Seq<u8>
    decreases ss.len(),
{
    if ss.len() == 0 {
        seq![]
    } else if ss.len() == 1 {
        ss[0]
    } else {
        join_commas(ss.drop_last()) + seq![44u8] + ss.last()
    }
}

/// Appends the components of `v`, with a comma between each two when
/// `commas` holds.
pub fn stream_all<C: Component>(v: &Vec<C>, out: &mut Vec<u8>, commas: bool)
    ensures
        final(out)@ == old(out)@ + (if commas {
            join_commas(views(v@))
        } else {
            concat(views(v@))
        }),
{
    let ghost ss = views(v@);
    let mut k: usize = 0;
    assert(ss.take(0) =~= seq![]);
    while k < v.len()
        invariant
            0 <= k <= v@.len(),
            ss == views(v@),
            out@ == old(out)@ + (if commas {
                join_commas(ss.take(k as int))
            } else {
                concat(ss.take(k as int))
            }),
        decreases v@.len() - k,
    {
        let ghost before = out@;
        if commas && k > 0 {
            let comma: [u8; 1] = [44u8];
            assert(comma@ == seq![44u8]);
            append(out, &comma);
        }
        append(out, v[k].as_bytes());
        proof {
            assert(ss.take(k + 1).drop_last() =~= ss.take(k as int));
            assert(ss.take(k + 1).last() == v@[k as int]@);
            if k == 0 {
                assert(ss.take(1)[0] == v@[0]@);
            }
            assert(out@ =~= old(out)@ + (if commas {
                join_commas(ss.take(k + 1))
            } else {
                concat(ss.take(k + 1))
            }));
        }
        k = k + 1;
    }
    assert(ss.take(v@.len() as int) =~= ss);
}

/// Putting one byte sequence in front of others puts it in front of their
/// concatenation.
pub proof fn lemma_concat_prepend(x: Seq<u8>, rest: Seq<Seq<u8>>)
    ensures
        concat(seq![x] + rest) == x + concat(rest),
    decreases rest.len(),
{
    if rest.len() == 0 {
        assert(seq![x] + rest =~= seq![x]);
        assert(seq![x].drop_last() =~= Seq::<Seq<u8>>::empty());
        assert(concat(Seq::<Seq<u8>>::empty()) == Seq::<u8>::empty());
        assert(concat(seq![x]) =~= x);
    } else {
        assert((seq![x] + rest).drop_last() =~= seq![x] + rest.drop_last());
        lemma_concat_prepend(x, rest.drop_last());
        assert(concat(seq![x] + rest) =~= x + concat(rest));
    }
}

/// The values that `repeat` finds, one after the other, are the bytes it
/// used.
pub proof fn lemma_concat_repeat<C: Component>(t: Seq<u8>)
    ensures
        repeat_len::<C>(t) <= t.len(),
        concat(repeat::<C>(t)) == t.take(repeat_len::<C>(t) as int),
    decreases t.len(),
{
    match C::rule(t) {
        Some(n) => if 0 < n <= t.len() {
            lemma_concat_repeat::<C>(t.skip(n as int));
            lemma_concat_prepend(t.take(n as int), repeat::<C>(t.skip(n as int)));
            assert(t.take(n as int) + t.skip(n as int).take(repeat_len::<C>(t.skip(n as int)) as int)
                =~= t.take(repeat_len::<C>(t) as int));
        } else {
            assert(concat(seq![]) =~= t.take(0));
        },
        None => {
            assert(concat(seq![]) =~= t.take(0));
        },
    }
}

/// Whether the input starts with a name does not depend on the case of its
/// letters.
pub proof fn lemma_name_match_case(s1: Seq<u8>, s2: Seq<u8>, name: Seq<u8>)
    requires
        same_up_to_case(s1, s2, name.len()),
    ensures
        starts_ci(s1, name) == starts_ci(s2, name),
{
    if starts_ci(s1, name) {
        assert forall|k: int| 0 <= k < name.len() implies ascii_lower(#[trigger] s2[k])
            == ascii_lower(name[k]) by {
            assert(ascii_lower(s1[k]) == ascii_lower(s2[k]));
        }
    }
    if starts_ci(s2, name) {
        assert forall|k: int| 0 <= k < name.len() implies ascii_lower(#[trigger] s1[k])
            == ascii_lower(name[k]) by {
            assert(ascii_lower(s1[k]) == ascii_lower(s2[k]));
        }
    }
}

/// Parsing a field with one value ignores the case of the letters of its
/// name.
pub proof fn lemma_field_name_case<C: Component>(
    s1: Seq<u8>,
    s2: Seq<u8>,
    name: Seq<u8>,
    eof_first: bool,
)
    requires
        same_up_to_case(s1, s2, name.len()),
    ensures
        field_parse::<C>(s1, name, eof_first) == field_parse::<C>(s2, name, eof_first),
{
    lemma_name_match_case(s1, s2, name);
    let p = name.len();
    assert(s1.skip(p as int) =~= s2.skip(p as int));
    if let Some(n) = C::rule(s1.skip(p as int)) {
        if p + n <= s1.len() {
            assert(s1.skip((p + n) as int) =~= s2.skip((p + n) as int));
            assert(s1.subrange(p as int, (p + n) as int) =~= s2.subrange(p as int, (p + n) as int));
        }
    }
}

/// A field with one value that was parsed streams back to the bytes it was
/// parsed from, but for the case of the letters of its name.
pub proof fn lemma_field_parse_stream<C: Component>(s: Seq<u8>, name: Name, eof_first: bool)
    requires
        field_parse::<C>(s, name_bytes(name), eof_first) is Ok,
    ensures
        field_parse::<C>(s, name_bytes(name), eof_first) matches Ok((v, n)) && same_up_to_case(
            field_stream(name, v),
            s.take(n as int),
            name_bytes(name).len(),
        ),
{
    let p = name_bytes(name).len();
    let n = C::rule(s.skip(p as int)).unwrap();
    let v = s.subrange(p as int, (p + n) as int);
    let st = field_stream(name, v);
    let t = s.take((p + n + 2) as int);
    assert forall|i: int| 0 <= i < p implies ascii_lower(#[trigger] st[i]) == ascii_lower(t[i]) by {
        assert(ascii_lower(s[i]) == ascii_lower(name_bytes(name)[i]));
    }
    assert forall|i: int| p <= i < st.len() implies #[trigger] st[i] == t[i] by {
        if i < p + n {
            assert(st[i] == v[i - p]);
        } else {
            assert(st[i] == crlf()[i - p - n]);
            assert(s.skip((p + n) as int)[i - p - n] == s[i]);
        }
    }
}

/// A value that its rule matches exactly when CR LF follows it streams to
/// a field that parses back to it.
pub proof fn lemma_field_stream_parse<C: Component>(v: Seq<u8>, name: Name, eof_first: bool)
    requires
        C::rule(v + crlf()) == Some(v.len()),
    ensures
        field_parse::<C>(field_stream(name, v), name_bytes(name), eof_first) == Ok::<
            (Seq<u8>, nat),
            ParseError,
        >((v, field_stream(name, v).len())),
{
    let nb = name_bytes(name);
    let st = field_stream(name, v);
    let p = nb.len();
    assert(st.skip(p as int) =~= v + crlf());
    assert(st.skip((p + v.len()) as int) =~= crlf());
    assert(st.subrange(p as int, (p + v.len()) as int) =~= v);
    assert(starts_ci(st, nb)) by {
        assert forall|k: int| 0 <= k < nb.len() implies ascii_lower(#[trigger] st[k])
            == ascii_lower(nb[k]) by {
            assert(st[k] == nb[k]);
        }
    }
}

/// *("," value): the values of `C`, each after a comma, at the start of `t`.
pub open spec fn comma_tail<C: Component>(t: Seq<u8>) -> Seq<Seq<u8>>
    decreases t.len(),
{
    if starts_with_byte(t, 44) {
        match C::rule(t.skip(1)) {
            Some(n) => if 1 + n <= t.len() {
                seq![t.subrange(1, 1 + n as int)] + comma_tail::<C>(t.skip(1 + n as int))
            } else {
                seq![]
            },
            None => seq![],
        }
    } else {
        seq![]
    }
}

/// The number of bytes that `comma_tail` uses.
pub open spec fn comma_tail_len<C: Component>(t: Seq<u8>) -> nat
    decreases t.len(),
{
    if starts_with_byte(t, 44) {
        match C::rule(t.skip(1)) {
            Some(n) => if 1 + n <= t.len() {
                1 + n + comma_tail_len::<C>(t.skip(1 + n as int))
            } else {
                0
            },
            None => 0,
        }
    } else {
        0
    }
}

/// value *("," value): one or more values of `C` separated by commas at the
/// start of `t`, with the number of bytes they use.
pub open spec fn comma_list<C: Component>(t: Seq<u8>) -> Option<(Seq<Seq<u8>>, nat)> {
    match C::rule(t) {
        Some(n) => if n <= t.len() {
            Some(
                (
                    seq![t.take(n as int)] + comma_tail::<C>(t.skip(n as int)),
                    n + comma_tail_len::<C>(t.skip(n as int)),
                ),
            )
        } else {
            None
        },
        None => None,
    }
}

pub fn parse_comma_list<C: Component>(s: &[u8], i: usize) -> (r: Option<(Vec<C>, usize)>)
    requires
        i <= s.len(),
    ensures
        match r {
            Some((v, k)) => comma_list::<C>(s@.skip(i as int)) == Some((views(v@), k as nat)) && i
                + k <= s.len(),
            None => comma_list::<C>(s@.skip(i as int)) is None,
        },
{
    let n = match C::scan(s, i) {
        Some(n) => n,
        None => {
            return None;
        },
    };
    let first = C::from_bytes(slice_to_vec(slice_subrange(s, i, i + n)));
    assert(s@.skip(i as int).take(n as int) =~= s@.subrange(i as int, (i + n) as int));
    assert(s@.skip(i as int).skip(n as int) == s@.skip(i + n));
    let ghost head = seq![first@];
    let mut v: Vec<C> = Vec::new();
    v.push(first);
    assert(views(v@) =~= head);
    let start = i + n;
    let mut j = start;
    loop
        invariant
            start <= j <= s.len(),
            views(v@) + comma_tail::<C>(s@.skip(j as int)) == head + comma_tail::<C>(
                s@.skip(start as int),
            ),
            (j - start) + comma_tail_len::<C>(s@.skip(j as int)) == comma_tail_len::<C>(
                s@.skip(start as int),
            ),
        ensures
            start <= j <= s.len(),
            views(v@) == head + comma_tail::<C>(s@.skip(start as int)),
            (j - start) == comma_tail_len::<C>(s@.skip(start as int)),
        decreases s@.len() - j,
    {
        if !byte_at(s, j, 44) {
            assert(views(v@) + seq![] =~= views(v@));
            break ;
        }
        assert(s@.skip(j as int).skip(1) == s@.skip(j + 1));
        match C::scan(s, j + 1) {
            Some(m) => {
                let c = C::from_bytes(slice_to_vec(slice_subrange(s, j + 1, j + 1 + m)));
                let ghost old_v = v@;
                proof {
                    assert(s@.skip(j as int).subrange(1, 1 + m as int) =~= s@.subrange(
                        j + 1,
                        (j + 1 + m) as int,
                    ));
                    assert(s@.skip(j as int).skip(1 + m as int) == s@.skip(j + 1 + m));
                }
                v.push(c);
                proof {
                    assert(views(v@) =~= views(old_v).push(c@));
                    assert(views(old_v) + comma_tail::<C>(s@.skip(j as int)) =~= views(v@)
                        + comma_tail::<C>(s@.skip(j + 1 + m)));
                }
                j = j + 1 + m;
            },
            None => {
                assert(views(v@) + seq![] =~= views(v@));
                break ;
            },
        }
    }
    Some((v, j - i))
}

/// Each byte sequence of `ss` after a comma, one after the other.
pub open spec fn commas_before(ss: Seq<Seq<u8>>) -> Seq<u8>
    decreases ss.len(),
{
    if ss.len() == 0 {
        seq![]
    } else {
        commas_before(ss.drop_last()) + seq![44u8] + ss.last()
    }
}

proof fn lemma_join_commas_prepend(x: Seq<u8>, rest: Seq<Seq<u8>>)
    ensures
        join_commas(seq![x] + rest) == x + commas_before(rest),
    decreases rest.len(),
{
    if rest.len() == 0 {
        assert(seq![x] + rest =~= seq![x]);
        assert(x + commas_before(rest) =~= x);
    } else {
        assert((seq![x] + rest).drop_last() =~= seq![x] + rest.drop_last());
        lemma_join_commas_prepend(x, rest.drop_last());
        assert(join_commas(seq![x] + rest) =~= x + commas_before(rest));
    }
}

proof fn lemma_commas_before_prepend(y: Seq<u8>, rest: Seq<Seq<u8>>)
    ensures
        commas_before(seq![y] + rest) == seq![44u8] + y + commas_before(rest),
    decreases rest.len(),
{
    if rest.len() == 0 {
        assert(seq![y] + rest =~= seq![y]);
        assert(seq![y].drop_last() =~= Seq::<Seq<u8>>::empty());
        assert(commas_before(Seq::<Seq<u8>>::empty()) == Seq::<u8>::empty());
        assert(commas_before(seq![y]) =~= seq![44u8] + y + commas_before(rest));
    } else {
        assert((seq![y] + rest).drop_last() =~= seq![y] + rest.drop_last());
        lemma_commas_before_prepend(y, rest.drop_last());
        assert(commas_before(seq![y] + rest) =~= seq![44u8] + y + commas_before(rest));
    }
}

proof fn lemma_comma_tail_bytes<C: Component>(t: Seq<u8>)
    ensures
        comma_tail_len::<C>(t) <= t.len(),
        t.take(comma_tail_len::<C>(t) as int) == commas_before(comma_tail::<C>(t)),
    decreases t.len(),
{
    if starts_with_byte(t, 44) {
        if let Some(n) = C::rule(t.skip(1)) {
            if 1 + n <= t.len() {
                let u = t.skip(1 + n as int);
                lemma_comma_tail_bytes::<C>(u);
                let y = t.subrange(1, 1 + n as int);
                lemma_commas_before_prepend(y, comma_tail::<C>(u));
                assert(t.take(comma_tail_len::<C>(t) as int) =~= seq![44u8] + y + u.take(
                    comma_tail_len::<C>(u) as int,
                ));
                return ;
            }
        }
    }
    assert(t.take(0) =~= commas_before(Seq::<Seq<u8>>::empty()));
}

/// The values of a comma-separated list, written out with commas between
/// them, are the bytes the list used.
pub proof fn lemma_comma_list_bytes<C: Component>(t: Seq<u8>)
    requires
        comma_list::<C>(t) is Some,
    ensures
        comma_list::<C>(t) matches Some((items, k)) && items.len() > 0 && k <= t.len()
            && join_commas(items) == t.take(k as int),
{
    let n = C::rule(t).unwrap();
    let u = t.skip(n as int);
    lemma_comma_tail_bytes::<C>(u);
    lemma_join_commas_prepend(t.take(n as int), comma_tail::<C>(u));
    assert(t.take(n as int) + u.take(comma_tail_len::<C>(u) as int) =~= t.take(
        (n + comma_tail_len::<C>(u)) as int,
    ));
}

} // verus!
