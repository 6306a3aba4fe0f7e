//! Addresses (RFC 5322 section 3.4), message identifiers (section 3.6.4),
//! the tokens and path of trace fields (section 3.6.7) and field names
//! (section 3.6.8).
use vstd::prelude::*;
use crate::scan::{
    agrees, byte_at, class_has, class_run, crlf, group_skip, in_class, or_zero, scan_class,
    starts_with_byte, Class, lemma_classes, rfc_specials, lemma_class_run, lemma_class_run_append,
};
use crate::lexical::{
    atom, cfws, comment_run, dot_atom, dot_atom_text, fws, opt_cfws, opt_fws, phrase,
    quoted_string, scan_cfws, scan_dot_atom, scan_dot_atom_text, scan_opt_cfws, scan_opt_fws,
    scan_phrase, scan_quoted_string, scan_word, word, words, is_dot_atom_text, ends_dot_atom,
    quiet_start, lemma_dot_atom_takes, lemma_no_cfws, lemma_cfws_space, lemma_dot_atom_text_takes,
    lemma_atom_takes, lemma_cfws_bound, lemma_words_bound,
};

verus! {

broadcast use group_skip;

/// local-part = dot-atom / quoted-string
#[verifier::opaque]
pub open spec fn local_part(t: Seq<u8>) -> Option<nat> {
    match dot_atom(t) {
        Some(n) => Some(n),
        None => quoted_string(t),
    }
}

pub fn scan_local_part(s: &[u8], i: usize) -> (r: Option<usize>)
    requires
        i <= s.len(),
    ensures
        agrees(r, local_part(s@.skip(i as int))),
        r matches Some(n) ==> i + n <= s.len(),
{
    reveal(local_part);
    match scan_dot_atom(s, i) {
        Some(n) => Some(n),
        None => scan_quoted_string(s, i),
    }
}

/// *([FWS] dtext), the inside of a domain literal.
pub open spec fn literal_body(t: Seq<u8>) -> nat
    decreases t.len(),
{
    let f = opt_fws(t);
    if f < t.len() && in_class(Class::Dtext, t[f as int]) {
        f + 1 + literal_body(t.skip((f + 1) as int))
    } else {
        0
    }
}

fn scan_literal_body(s: &[u8], start: usize) -> (n: usize)
    requires
        start <= s.len(),
    ensures
        n == literal_body(s@.skip(start as int)),
        start + n <= s.len(),
{
    let mut j = start;
    loop
        invariant
            start <= j <= s.len(),
            literal_body(s@.skip(start as int)) == (j - start) + literal_body(s@.skip(j as int)),
        ensures
            start <= j <= s.len(),
            literal_body(s@.skip(start as int)) == (j - start),
        decreases s@.len() - j,
    {
        let f = scan_opt_fws(s, j);
        if j + f < s.len() && class_has(Class::Dtext, s[j + f]) {
            assert(s@.skip(j as int).skip(f + 1) == s@.skip(j + f + 1));
            j = j + f + 1;
        } else {
            break ;
        }
    }
    j - start
}

/// domain-literal = [CFWS] "[" *([FWS] dtext) [FWS] "]" [CFWS]
#[verifier::opaque]
pub open spec fn domain_literal(t: Seq<u8>) -> Option<nat> {
    let a = opt_cfws(t);
    if starts_with_byte(t.skip(a as int), 91) {
        let b = literal_body(t.skip((a + 1) as int));
        let f = opt_fws(t.skip((a + 1 + b) as int));
        if starts_with_byte(t.skip((a + 1 + b + f) as int), 93) {
            Some(a + 1 + b + f + 1 + opt_cfws(t.skip((a + 1 + b + f + 1) as int)))
        } else {
            None
        }
    } else {
        None
    }
}

pub fn scan_domain_literal(s: &[u8], i: usize) -> (r: Option<usize>)
    requires
        i <= s.len(),
    ensures
        agrees(r, domain_literal(s@.skip(i as int))),
        r matches Some(n) ==> i + n <= s.len(),
{
    reveal(domain_literal);
    let a = scan_opt_cfws(s, i);
    assert(s@.skip(i as int).skip(a as int) == s@.skip(i + a));
    if !byte_at(s, i + a, 91) {
        return None;
    }
    let start = i + a + 1;
    assert(s@.skip(i as int).skip(a + 1) == s@.skip(start as int));
    let b = scan_literal_body(s, start);
    let j = start + b;
    let f = scan_opt_fws(s, j);
    assert(s@.skip(i as int).skip(a + 1 + b) == s@.skip(j as int));
    assert(s@.skip(i as int).skip(a + 1 + b + f) == s@.skip(j + f));
    if !byte_at(s, j + f, 93) {
        return None;
    }
    let c = scan_opt_cfws(s, j + f + 1);
    assert(s@.skip(i as int).skip(a + 1 + b + f + 1) == s@.skip(j + f + 1));
    Some(a + 1 + b + f + 1 + c)
}

/// domain = dot-atom / domain-literal
#[verifier::opaque]
pub open spec fn domain(t: Seq<u8>) -> Option<nat> {
    match dot_atom(t) {
        Some(n) => Some(n),
        None => domain_literal(t),
    }
}

pub fn scan_domain(s: &[u8], i: usize) -> (r: Option<usize>)
    requires
        i <= s.len(),
    ensures
        agrees(r, domain(s@.skip(i as int))),
        r matches Some(n) ==> i + n <= s.len(),
{
    reveal(domain);
    match scan_dot_atom(s, i) {
        Some(n) => Some(n),
        None => scan_domain_literal(s, i),
    }
}

/// addr-spec = local-part "@" domain
#[verifier::opaque]
pub open spec fn addr_spec(t: Seq<u8>) -> Option<nat> {
    match local_part(t) {
        Some(a) => if starts_with_byte(t.skip(a as int), 64) {
            match domain(t.skip((a + 1) as int)) {
                Some(b) => Some(a + 1 + b),
                None => None,
            }
        } else {
            None
        },
        None => None,
    }
}

pub fn scan_addr_spec(s: &[u8], i: usize) -> (r: Option<usize>)
    requires
        i <= s.len(),
    ensures
        agrees(r, addr_spec(s@.skip(i as int))),
        r matches Some(n) ==> i + n <= s.len(),
{
    reveal(addr_spec);
    let a = match scan_local_part(s, i) {
        Some(a) => a,
        None => {
            return None;
        },
    };
    assert(s@.skip(i as int).skip(a as int) == s@.skip(i + a));
    if !byte_at(s, i + a, 64) {
        return None;
    }
    assert(s@.skip(i as int).skip(a + 1) == s@.skip(i + a + 1));
    match scan_domain(s, i + a + 1) {
        Some(b) => Some(a + 1 + b),
        None => None,
    }
}

/// angle-addr = [CFWS] "<" addr-spec ">" [CFWS]
#[verifier::opaque]
pub open spec fn angle_addr(t: Seq<u8>) -> Option<nat> {
    let a = opt_cfws(t);
    if starts_with_byte(t.skip(a as int), 60) {
        match addr_spec(t.skip((a + 1) as int)) {
            Some(b) => if starts_with_byte(t.skip((a + 1 + b) as int), 62) {
                Some(a + 1 + b + 1 + opt_cfws(t.skip((a + 1 + b + 1) as int)))
            } else {
                None
            },
            None => None,
        }
    } else {
        None
    }
}

pub fn scan_angle_addr(s: &[u8], i: usize) -> (r: Option<usize>)
    requires
        i <= s.len(),
    ensures
        agrees(r, angle_addr(s@.skip(i as int))),
        r matches Some(n) ==> i + n <= s.len(),
{
    reveal(angle_addr);
    let a = scan_opt_cfws(s, i);
    assert(s@.skip(i as int).skip(a as int) == s@.skip(i + a));
    if !byte_at(s, i + a, 60) {
        return None;
    }
    assert(s@.skip(i as int).skip(a + 1) == s@.skip(i + a + 1));
    let b = match scan_addr_spec(s, i + a + 1) {
        Some(b) => b,
        None => {
            return None;
        },
    };
    assert(s@.skip(i as int).skip(a + 1 + b) == s@.skip(i + a + 1 + b));
    if !byte_at(s, i + a + 1 + b, 62) {
        return None;
    }
    let c = scan_opt_cfws(s, i + a + 1 + b + 1);
    assert(s@.skip(i as int).skip(a + 1 + b + 1) == s@.skip(i + a + 1 + b + 1));
    Some(a + 1 + b + 1 + c)
}

/// The `@` of an addr-spec and the brackets of an angle-addr are not atext.
proof fn lemma_delimiters()
    ensures
        !in_class(Class::Atext, 64),
        !in_class(Class::Atext, 60),
        !in_class(Class::Atext, 62),
{
    lemma_classes(64);
    lemma_classes(60);
    lemma_classes(62);
    assert(rfc_specials()[8] == 64);
    assert(rfc_specials()[2] == 60);
    assert(rfc_specials()[3] == 62);
}

/// An addr-spec as it is usually written: a local part, `@` and a domain.
pub open spec fn addr_text(l: Seq<u8>, d: Seq<u8>) -> Seq<u8> {
    l + seq![64u8] + d
}

/// An angle-addr as it is usually written: an addr-spec between `<` and `>`.
pub open spec fn angle_text(l: Seq<u8>, d: Seq<u8>) -> Seq<u8> {
    seq![60u8] + addr_text(l, d) + seq![62u8]
}

/// A local part and a domain, each a dot-atom-text, joined by `@` make an
/// addr-spec, and it takes all of them, with or without a space before.
pub proof fn lemma_addr_spec_takes(l: Seq<u8>, d: Seq<u8>, y: Seq<u8>)
    requires
        is_dot_atom_text(l),
        is_dot_atom_text(d),
        ends_dot_atom(y),
        quiet_start(y),
    ensures
        addr_spec(addr_text(l, d) + y) == Some(addr_text(l, d).len()),
        addr_spec(seq![32u8] + addr_text(l, d) + y) == Some(addr_text(l, d).len() + 1),
{
    reveal(addr_spec);
    reveal(local_part);
    reveal(domain);
    lemma_delimiters();
    let y1 = seq![64u8] + d + y;
    assert(y1[0] == 64);
    lemma_dot_atom_takes(l, y1);
    lemma_dot_atom_takes(d, y);
    let t = addr_text(l, d) + y;
    assert(t =~= l + y1);
    assert(t.skip(l.len() as int) =~= y1);
    assert(t.skip((l.len() + 1) as int) =~= d + y);
    let u = seq![32u8] + addr_text(l, d) + y;
    assert(u =~= seq![32u8] + l + y1);
    assert(u.skip((l.len() + 1) as int) =~= y1);
    assert(u.skip((l.len() + 2) as int) =~= d + y);
}

proof fn lemma_angle_addr_after(l: Seq<u8>, d: Seq<u8>, y: Seq<u8>, p: Seq<u8>)
    requires
        is_dot_atom_text(l),
        is_dot_atom_text(d),
        quiet_start(y),
        opt_cfws(p + angle_text(l, d) + y) == p.len(),
    ensures
        angle_addr(p + angle_text(l, d) + y) == Some(p.len() + angle_text(l, d).len()),
{
    reveal(angle_addr);
    lemma_delimiters();
    let t = p + angle_text(l, d) + y;
    let a: int = p.len() as int;
    let y1 = seq![62u8] + y;
    assert(t.skip(a)[0] == 60);
    assert(t.skip(a + 1) =~= addr_text(l, d) + y1);
    assert(y1[0] == 62);
    lemma_addr_spec_takes(l, d, y1);
    assert(t.skip(a + 1 + addr_text(l, d).len()) =~= y1);
    assert(t.skip(a + 1 + addr_text(l, d).len() + 1) =~= y);
    lemma_no_cfws(y);
}

/// An addr-spec of that form between angle brackets makes an angle-addr,
/// and it takes all of it, with or without a space before.
pub proof fn lemma_angle_addr_takes(l: Seq<u8>, d: Seq<u8>, y: Seq<u8>)
    requires
        is_dot_atom_text(l),
        is_dot_atom_text(d),
        quiet_start(y),
    ensures
        angle_addr(angle_text(l, d) + y) == Some(angle_text(l, d).len()),
        angle_addr(seq![32u8] + angle_text(l, d) + y) == Some(angle_text(l, d).len() + 1),
{
    let v = angle_text(l, d);
    assert(seq![] + v + y =~= v + y);
    assert((v + y)[0] == 60);
    lemma_classes(60);
    lemma_no_cfws(v + y);
    lemma_angle_addr_after(l, d, y, seq![]);
    lemma_cfws_space(v + y);
    assert(seq![32u8] + v + y =~= seq![32u8] + (v + y));
    lemma_angle_addr_after(l, d, y, seq![32u8]);
}

/// name-addr = [display-name] angle-addr, where display-name = phrase
#[verifier::opaque]
pub open spec fn name_addr(t: Seq<u8>) -> Option<nat> {
    let p = or_zero(phrase(t));
    match angle_addr(t.skip(p as int)) {
        Some(b) => Some(p + b),
        None => None,
    }
}

pub fn scan_name_addr(s: &[u8], i: usize) -> (r: Option<usize>)
    requires
        i <= s.len(),
    ensures
        agrees(r, name_addr(s@.skip(i as int))),
        r matches Some(n) ==> i + n <= s.len(),
{
    reveal(name_addr);
    let p = match scan_phrase(s, i) {
        Some(p) => p,
        None => 0,
    };
    assert(s@.skip(i as int).skip(p as int) == s@.skip(i + p));
    match scan_angle_addr(s, i + p) {
        Some(b) => Some(p + b),
        None => None,
    }
}

/// mailbox = name-addr / addr-spec
#[verifier::opaque]
pub open spec fn mailbox(t: Seq<u8>) -> Option<nat> {
    match name_addr(t) {
        Some(n) => Some(n),
        None => addr_spec(t),
    }
}

pub fn scan_mailbox(s: &[u8], i: usize) -> (r: Option<usize>)
    requires
        i <= s.len(),
    ensures
        agrees(r, mailbox(s@.skip(i as int))),
        r matches Some(n) ==> i + n <= s.len(),
{
    reveal(mailbox);
    match scan_name_addr(s, i) {
        Some(n) => Some(n),
        None => scan_addr_spec(s, i),
    }
}

/// No angle-addr starts anywhere in text that holds no `<`.
proof fn lemma_no_angle(t: Seq<u8>, p: int)
    requires
        forall|i: int| 0 <= i < t.len() ==> #[trigger] t[i] != 60,
        0 <= p <= t.len(),
    ensures
        angle_addr(t.skip(p)) is None,
{
    reveal(angle_addr);
    let u = t.skip(p);
    lemma_cfws_bound(u);
    let a = opt_cfws(u);
    if starts_with_byte(u.skip(a as int), 60) {
        assert(u.skip(a as int)[0] == t[p + a]);
    }
}

/// A bare addr-spec whose two parts are dot-atom-texts, after a space, is a
/// mailbox, and it takes all of it, when nothing after it holds a `<`.
pub proof fn lemma_mailbox_addr_spec_takes(l: Seq<u8>, d: Seq<u8>, y: Seq<u8>)
    requires
        is_dot_atom_text(l),
        is_dot_atom_text(d),
        ends_dot_atom(y),
        quiet_start(y),
        forall|i: int| 0 <= i < y.len() ==> #[trigger] y[i] != 60,
    ensures
        mailbox(seq![32u8] + addr_text(l, d) + y) == Some(addr_text(l, d).len() + 1),
{
    reveal(mailbox);
    reveal(name_addr);
    reveal(phrase);
    lemma_delimiters();
    let t = seq![32u8] + addr_text(l, d) + y;
    assert(t =~= seq![32u8] + l + seq![64u8] + d + y);
    assert forall|i: int| 0 <= i < t.len() implies #[trigger] t[i] != 60 by {
        if 1 <= i < 1 + l.len() {
            assert(t[i] == l[i - 1]);
        } else if 2 + l.len() <= i < 2 + l.len() + d.len() {
            assert(t[i] == d[i - 2 - l.len()]);
        } else if i >= 2 + l.len() + d.len() {
            assert(t[i] == y[i - 2 - l.len() - d.len()]);
        }
    }
    lemma_words_bound(t);
    lemma_no_angle(t, or_zero(phrase(t)) as int);
    lemma_addr_spec_takes(l, d, y);
}

/// A display name of one atom and an angle-addr of that form, each after a
/// space, make a mailbox, and it takes all of it.
pub proof fn lemma_mailbox_named_takes(n: Seq<u8>, l: Seq<u8>, d: Seq<u8>, y: Seq<u8>)
    requires
        n.len() > 0,
        forall|i: int| 0 <= i < n.len() ==> in_class(Class::Atext, #[trigger] n[i]),
        is_dot_atom_text(l),
        is_dot_atom_text(d),
        quiet_start(y),
    ensures
        mailbox(seq![32u8] + n + seq![32u8] + angle_text(l, d) + y) == Some(
            n.len() + 2 + angle_text(l, d).len(),
        ),
{
    reveal(mailbox);
    reveal(name_addr);
    reveal(phrase);
    reveal(word);
    reveal(atom);
    reveal(quoted_string);
    lemma_delimiters();
    let v = angle_text(l, d);
    let t = seq![32u8] + n + seq![32u8] + v + y;
    let w = v + y;
    assert(t =~= seq![32u8] + n + seq![32u8] + w);
    assert(w[0] == 60);
    lemma_classes(60);
    lemma_atom_takes(n, w);
    assert(word(t) == Some(n.len() + 2));
    assert(t.skip((n.len() + 2) as int) =~= w);
    lemma_no_cfws(w);
    assert(w.skip(0) =~= w);
    assert(class_run(Class::Atext, w) == 0);
    assert(word(w) is None);
    assert(words(w) == 0);
    assert(words(t) == n.len() + 2);
    lemma_angle_addr_takes(l, d, y);
}

/// A mailbox list that is one mailbox, followed by anything but a comma,
/// is that mailbox.
pub proof fn lemma_mailbox_list_one(t: Seq<u8>, n: nat)
    requires
        mailbox(t) == Some(n),
        n <= t.len(),
        !(n < t.len() && t[n as int] == 44),
    ensures
        mailbox_list(t) == Some(n),
{
    reveal(mailbox_list);
    assert(mailbox_tail(t.skip(n as int)) == 0);
}

/// Atext only, at least one byte.
pub open spec fn is_atom_text(n: Seq<u8>) -> bool {
    n.len() > 0 && forall|i: int| 0 <= i < n.len() ==> in_class(Class::Atext, #[trigger] n[i])
}

proof fn lemma_atom_text_dotted(n: Seq<u8>)
    requires
        is_atom_text(n),
    ensures
        is_dot_atom_text(n),
{
    lemma_classes(46);
    assert(rfc_specials()[11] == 46);
}

proof fn lemma_no_word(y: Seq<u8>)
    requires
        quiet_start(y),
        y.len() > 0,
        !in_class(Class::Atext, y[0]),
        y[0] != 34,
    ensures
        word(y) is None,
        words(y) == 0,
        phrase(y) is None,
{
    reveal(word);
    reveal(atom);
    reveal(quoted_string);
    reveal(phrase);
    lemma_no_cfws(y);
    assert(y.skip(0) =~= y);
    assert(class_run(Class::Atext, y) == 0);
}

proof fn lemma_phrase_one_atom(n: Seq<u8>, y: Seq<u8>)
    requires
        is_atom_text(n),
        quiet_start(y),
        y.len() > 0,
        !in_class(Class::Atext, y[0]),
        y[0] != 34,
    ensures
        phrase(seq![32u8] + n + y) == Some(n.len() + 1),
{
    reveal(word);
    reveal(atom);
    reveal(phrase);
    let t = seq![32u8] + n + y;
    let v = n + y;
    assert(t =~= seq![32u8] + v);
    assert(v[0] == n[0]);
    lemma_classes(n[0]);
    lemma_cfws_space(v);
    assert(t.skip(1) =~= v);
    lemma_class_run_append(Class::Atext, n, y);
    lemma_class_run(Class::Atext, n);
    assert(t.skip((1 + n.len()) as int) =~= y);
    lemma_no_cfws(y);
    lemma_no_word(y);
}

proof fn lemma_special_quiet(b: u8, y: Seq<u8>)
    requires
        b == 58 || b == 59,
    ensures
        quiet_start(seq![b] + y),
        !in_class(Class::Atext, b),
        b != 34 && b != 46 && b != 60 && b != 64,
{
    lemma_classes(b);
    assert(rfc_specials()[6] == 58);
    assert(rfc_specials()[7] == 59);
}

proof fn lemma_no_mailbox_at(y: Seq<u8>)
    requires
        y.len() > 0,
        quiet_start(y),
        y[0] == 58 || y[0] == 59,
    ensures
        mailbox(y) is None,
        group_list(y) is None,
{
    reveal(mailbox);
    reveal(name_addr);
    reveal(addr_spec);
    reveal(local_part);
    reveal(angle_addr);
    reveal(mailbox_list);
    reveal(dot_atom);
    reveal(dot_atom_text);
    reveal(quoted_string);
    lemma_special_quiet(y[0], y.skip(1));
    lemma_no_cfws(y);
    assert(y.skip(0) =~= y);
    lemma_no_word(y);
    assert(class_run(Class::Atext, y) == 0);
}

proof fn lemma_group_not_mailbox(n: Seq<u8>, y1: Seq<u8>)
    requires
        is_atom_text(n),
        quiet_start(y1),
        y1.len() > 0,
        y1[0] == 58,
    ensures
        mailbox(seq![32u8] + n + y1) is None,
{
    reveal(mailbox);
    reveal(name_addr);
    reveal(addr_spec);
    reveal(local_part);
    reveal(angle_addr);
    let t = seq![32u8] + n + y1;
    lemma_special_quiet(58, y1.skip(1));
    lemma_phrase_one_atom(n, y1);
    assert(t.skip((n.len() + 1) as int) =~= y1);
    lemma_no_cfws(y1);
    assert(y1.skip(0) =~= y1);
    lemma_atom_text_dotted(n);
    lemma_dot_atom_takes(n, y1);
}

/// A group with a one-atom display name and no members, such as
/// `undisclosed-recipients:;`, after a space, is an address, and it takes
/// all of it.
pub proof fn lemma_empty_group_takes(n: Seq<u8>, y: Seq<u8>)
    requires
        is_atom_text(n),
        quiet_start(y),
    ensures
        group(seq![32u8] + n + seq![58u8, 59u8] + y) == Some(n.len() + 3),
        address(seq![32u8] + n + seq![58u8, 59u8] + y) == Some(n.len() + 3),
{
    reveal(group);
    reveal(address);
    let y1 = seq![58u8, 59u8] + y;
    let y2 = seq![59u8] + y;
    assert(y1 =~= seq![58u8] + y2);
    let t = seq![32u8] + n + y1;
    assert(t =~= seq![32u8] + n + seq![58u8, 59u8] + y);
    lemma_special_quiet(58, y2);
    lemma_special_quiet(59, y);
    lemma_phrase_one_atom(n, y1);
    assert(t.skip((n.len() + 1) as int) =~= y1);
    assert(t.skip((n.len() + 2) as int) =~= y2);
    lemma_no_mailbox_at(y2);
    lemma_no_cfws(y2);
    assert(t.skip((n.len() + 3) as int) =~= y);
    lemma_no_cfws(y);
    lemma_group_not_mailbox(n, y1);
}

/// *("," mailbox)
pub open spec fn mailbox_tail(t: Seq<u8>) -> nat
    decreases t.len(),
{
    if starts_with_byte(t, 44) {
        match mailbox(t.skip(1)) {
            Some(m) => if 1 + m <= t.len() {
                1 + m + mailbox_tail(t.skip((1 + m) as int))
            } else {
                0
            },
            None => 0,
        }
    } else {
        0
    }
}

/// mailbox-list = mailbox *("," mailbox)
#[verifier::opaque]
pub open spec fn mailbox_list(t: Seq<u8>) -> Option<nat> {
    match mailbox(t) {
        Some(m) => Some(m + mailbox_tail(t.skip(m as int))),
        None => None,
    }
}

pub fn scan_mailbox_list(s: &[u8], i: usize) -> (r: Option<usize>)
    requires
        i <= s.len(),
    ensures
        agrees(r, mailbox_list(s@.skip(i as int))),
        r matches Some(n) ==> i + n <= s.len(),
{
    reveal(mailbox_list);
    let m = match scan_mailbox(s, i) {
        Some(m) => m,
        None => {
            return None;
        },
    };
    let start = i + m;
    let mut j = start;
    loop
        invariant
            start <= j <= s.len(),
            mailbox_tail(s@.skip(start as int)) == (j - start) + mailbox_tail(s@.skip(j as int)),
        ensures
            start <= j <= s.len(),
            mailbox_tail(s@.skip(start as int)) == (j - start),
        decreases s@.len() - j,
    {
        if !byte_at(s, j, 44) {
            break ;
        }
        assert(s@.skip(j as int).skip(1) == s@.skip(j + 1));
        match scan_mailbox(s, j + 1) {
            Some(k) => {
                assert(s@.skip(j as int).skip(1 + k) == s@.skip(j + 1 + k));
                j = j + 1 + k;
            },
            None => {
                break ;
            },
        }
    }
    assert(s@.skip(i as int).skip(m as int) == s@.skip(start as int));
    Some(j - i)
}

/// group-list = mailbox-list / CFWS
pub open spec fn group_list(t: Seq<u8>) -> Option<nat> {
    match mailbox_list(t) {
        Some(n) => Some(n),
        None => cfws(t),
    }
}

/// group = display-name ":" [group-list] ";" [CFWS]
#[verifier::opaque]
pub open spec fn group(t: Seq<u8>) -> Option<nat> {
    match phrase(t) {
        Some(p) => if starts_with_byte(t.skip(p as int), 58) {
            let g = or_zero(group_list(t.skip((p + 1) as int)));
            if starts_with_byte(t.skip((p + 1 + g) as int), 59) {
                Some(p + 1 + g + 1 + opt_cfws(t.skip((p + 1 + g + 1) as int)))
            } else {
                None
            }
        } else {
            None
        },
        None => None,
    }
}

pub fn scan_group(s: &[u8], i: usize) -> (r: Option<usize>)
    requires
        i <= s.len(),
    ensures
        agrees(r, group(s@.skip(i as int))),
        r matches Some(n) ==> i + n <= s.len(),
{
    reveal(group);
    let p = match scan_phrase(s, i) {
        Some(p) => p,
        None => {
            return None;
        },
    };
    assert(s@.skip(i as int).skip(p as int) == s@.skip(i + p));
    if !byte_at(s, i + p, 58) {
        return None;
    }
    let j = i + p + 1;
    assert(s@.skip(i as int).skip(p + 1) == s@.skip(j as int));
    let g = match scan_mailbox_list(s, j) {
        Some(n) => n,
        None => match scan_cfws(s, j) {
            Some(n) => n,
            None => 0,
        },
    };
    assert(s@.skip(i as int).skip(p + 1 + g) == s@.skip(j + g));
    if !byte_at(s, j + g, 59) {
        return None;
    }
    let c = scan_opt_cfws(s, j + g + 1);
    assert(s@.skip(i as int).skip(p + 1 + g + 1) == s@.skip(j + g + 1));
    Some(p + 1 + g + 1 + c)
}

/// address = mailbox / group
#[verifier::opaque]
pub open spec fn address(t: Seq<u8>) -> Option<nat> {
    match mailbox(t) {
        Some(n) => Some(n),
        None => group(t),
    }
}

pub fn scan_address(s: &[u8], i: usize) -> (r: Option<usize>)
    requires
        i <= s.len(),
    ensures
        agrees(r, address(s@.skip(i as int))),
        r matches Some(n) ==> i + n <= s.len(),
{
    reveal(address);
    match scan_mailbox(s, i) {
        Some(n) => Some(n),
        None => scan_group(s, i),
    }
}

/// *("," address)
pub open spec fn address_tail(t: Seq<u8>) -> nat
    decreases t.len(),
{
    if starts_with_byte(t, 44) {
        match address(t.skip(1)) {
            Some(m) => if 1 + m <= t.len() {
                1 + m + address_tail(t.skip((1 + m) as int))
            } else {
                0
            },
            None => 0,
        }
    } else {
        0
    }
}

/// address-list = address *("," address)
#[verifier::opaque]
pub open spec fn address_list(t: Seq<u8>) -> Option<nat> {
    match address(t) {
        Some(m) => Some(m + address_tail(t.skip(m as int))),
        None => None,
    }
}

/// An address list that is one address, followed by anything but a comma,
/// is that address.
pub proof fn lemma_address_list_one(t: Seq<u8>, n: nat)
    requires
        address(t) == Some(n),
        n <= t.len(),
        !(n < t.len() && t[n as int] == 44),
    ensures
        address_list(t) == Some(n),
{
    reveal(address_list);
    assert(address_tail(t.skip(n as int)) == 0);
}

pub fn scan_address_list(s: &[u8], i: usize) -> (r: Option<usize>)
    requires
        i <= s.len(),
    ensures
        agrees(r, address_list(s@.skip(i as int))),
        r matches Some(n) ==> i + n <= s.len(),
{
    reveal(address_list);
    let m = match scan_address(s, i) {
        Some(m) => m,
        None => {
            return None;
        },
    };
    let start = i + m;
    let mut j = start;
    loop
        invariant
            start <= j <= s.len(),
            address_tail(s@.skip(start as int)) == (j - start) + address_tail(s@.skip(j as int)),
        ensures
            start <= j <= s.len(),
            address_tail(s@.skip(start as int)) == (j - start),
        decreases s@.len() - j,
    {
        if !byte_at(s, j, 44) {
            break ;
        }
        assert(s@.skip(j as int).skip(1) == s@.skip(j + 1));
        match scan_address(s, j + 1) {
            Some(k) => {
                assert(s@.skip(j as int).skip(1 + k) == s@.skip(j + 1 + k));
                j = j + 1 + k;
            },
            None => {
                break ;
            },
        }
    }
    assert(s@.skip(i as int).skip(m as int) == s@.skip(start as int));
    Some(j - i)
}

/// no-fold-literal = "[" *dtext "]"
#[verifier::opaque]
pub open spec fn no_fold_literal(t: Seq<u8>) -> Option<nat> {
    if starts_with_byte(t, 91) {
        let n = class_run(Class::Dtext, t.skip(1));
        if starts_with_byte(t.skip((1 + n) as int), 93) {
            Some(n + 2)
        } else {
            None
        }
    } else {
        None
    }
}

pub fn scan_no_fold_literal(s: &[u8], i: usize) -> (r: Option<usize>)
    requires
        i <= s.len(),
    ensures
        agrees(r, no_fold_literal(s@.skip(i as int))),
        r matches Some(n) ==> i + n <= s.len(),
{
    reveal(no_fold_literal);
    if !byte_at(s, i, 91) {
        return None;
    }
    let n = scan_class(Class::Dtext, s, i + 1);
    assert(s@.skip(i as int).skip(1) == s@.skip(i + 1));
    assert(s@.skip(i as int).skip(1 + n) == s@.skip(i + 1 + n));
    if byte_at(s, i + 1 + n, 93) {
        Some(n + 2)
    } else {
        None
    }
}

/// id-right = dot-atom-text / no-fold-literal
pub open spec fn id_right(t: Seq<u8>) -> Option<nat> {
    match dot_atom_text(t) {
        Some(n) => Some(n),
        None => no_fold_literal(t),
    }
}

/// msg-id = [CFWS] "<" id-left "@" id-right ">" [CFWS], where id-left = dot-atom-text
#[verifier::opaque]
pub open spec fn msg_id(t: Seq<u8>) -> Option<nat> {
    let a = opt_cfws(t);
    if starts_with_byte(t.skip(a as int), 60) {
        match dot_atom_text(t.skip((a + 1) as int)) {
            Some(b) => if starts_with_byte(t.skip((a + 1 + b) as int), 64) {
                match id_right(t.skip((a + 1 + b + 1) as int)) {
                    Some(c) => if starts_with_byte(t.skip((a + 1 + b + 1 + c) as int), 62) {
                        Some(a + 1 + b + 1 + c + 1 + opt_cfws(
                            t.skip((a + 1 + b + 1 + c + 1) as int),
                        ))
                    } else {
                        None
                    },
                    None => None,
                }
            } else {
                None
            },
            None => None,
        }
    } else {
        None
    }
}

/// A message identifier as it is usually written: `<`, a left part, `@`, a
/// right part and `>`.
pub open spec fn msg_id_text(l: Seq<u8>, r: Seq<u8>) -> Seq<u8> {
    seq![60u8] + l + seq![64u8] + r + seq![62u8]
}

/// A message identifier whose two parts are dot-atom-texts is read whole,
/// with or without a space before it, up to whatever follows it that
/// cannot begin comments or white space.
pub proof fn lemma_msg_id_takes(l: Seq<u8>, r: Seq<u8>, y: Seq<u8>)
    requires
        is_dot_atom_text(l),
        is_dot_atom_text(r),
        quiet_start(y),
    ensures
        msg_id(msg_id_text(l, r) + y) == Some(msg_id_text(l, r).len()),
        msg_id(seq![32u8] + msg_id_text(l, r) + y) == Some(msg_id_text(l, r).len() + 1),
{
    let v = msg_id_text(l, r);
    assert(seq![] + v + y =~= v + y);
    assert((v + y)[0] == 60);
    lemma_classes(60);
    lemma_no_cfws(v + y);
    lemma_msg_id_after(l, r, y, seq![]);
    lemma_cfws_space(v + y);
    assert(seq![32u8] + v + y =~= seq![32u8] + (v + y));
    lemma_msg_id_after(l, r, y, seq![32u8]);
}

proof fn lemma_msg_id_after(l: Seq<u8>, r: Seq<u8>, y: Seq<u8>, p: Seq<u8>)
    requires
        is_dot_atom_text(l),
        is_dot_atom_text(r),
        quiet_start(y),
        opt_cfws(p + msg_id_text(l, r) + y) == p.len(),
    ensures
        msg_id(p + msg_id_text(l, r) + y) == Some(p.len() + msg_id_text(l, r).len()),
{
    reveal(msg_id);
    lemma_delimiters();
    let t = p + msg_id_text(l, r) + y;
    let a: int = p.len() as int;
    let y1 = seq![64u8] + r + seq![62u8] + y;
    assert(t.skip(a)[0] == 60);
    assert(t.skip(a + 1) =~= l + y1);
    assert(y1[0] == 64);
    lemma_dot_atom_text_takes(l, y1);
    assert(t.skip(a + 1 + l.len()) =~= y1);
    let y2 = seq![62u8] + y;
    assert(t.skip(a + 1 + l.len() + 1) =~= r + y2);
    assert(y2[0] == 62);
    lemma_dot_atom_text_takes(r, y2);
    assert(t.skip(a + 1 + l.len() + 1 + r.len()) =~= y2);
    assert(t.skip(a + 1 + l.len() + 1 + r.len() + 1) =~= y);
    lemma_no_cfws(y);
}

pub fn scan_msg_id(s: &[u8], i: usize) -> (r: Option<usize>)
    requires
        i <= s.len(),
    ensures
        agrees(r, msg_id(s@.skip(i as int))),
        r matches Some(n) ==> i + n <= s.len(),
{
    reveal(msg_id);
    let a = scan_opt_cfws(s, i);
    assert(s@.skip(i as int).skip(a as int) == s@.skip(i + a));
    if !byte_at(s, i + a, 60) {
        return None;
    }
    let j = i + a + 1;
    assert(s@.skip(i as int).skip(a + 1) == s@.skip(j as int));
    let b = match scan_dot_atom_text(s, j) {
        Some(b) => b,
        None => {
            return None;
        },
    };
    assert(s@.skip(i as int).skip(a + 1 + b) == s@.skip(j + b));
    if !byte_at(s, j + b, 64) {
        return None;
    }
    let k = j + b + 1;
    assert(s@.skip(i as int).skip(a + 1 + b + 1) == s@.skip(k as int));
    let c = match scan_dot_atom_text(s, k) {
        Some(c) => c,
        None => match scan_no_fold_literal(s, k) {
            Some(c) => c,
            None => {
                return None;
            },
        },
    };
    assert(s@.skip(i as int).skip(a + 1 + b + 1 + c) == s@.skip(k + c));
    if !byte_at(s, k + c, 62) {
        return None;
    }
    let d = scan_opt_cfws(s, k + c + 1);
    assert(s@.skip(i as int).skip(a + 1 + b + 1 + c + 1) == s@.skip(k + c + 1));
    Some(a + 1 + b + 1 + c + 1 + d)
}

/// The longer of two matches, the first one when they are equally long.
pub open spec fn longer(x: Option<nat>, y: Option<nat>) -> Option<nat> {
    match x {
        Some(a) => match y {
            Some(b) => if b > a {
                Some(b)
            } else {
                Some(a)
            },
            None => Some(a),
        },
        None => y,
    }
}

fn longer_exec(x: Option<usize>, y: Option<usize>) -> (r: Option<usize>)
    ensures
        forall|a: Option<nat>, b: Option<nat>|
            agrees(x, a) && agrees(y, b) ==> agrees(r, #[trigger] longer(a, b)),
        r == x || r == y,
{
    match x {
        Some(a) => match y {
            Some(b) => if b > a {
                Some(b)
            } else {
                Some(a)
            },
            None => Some(a),
        },
        None => y,
    }
}

/// received-token = word / angle-addr / addr-spec / domain; the grammar is
/// ambiguous here, and the longest of the four matches is taken.
#[verifier::opaque]
pub open spec fn received_token(t: Seq<u8>) -> Option<nat> {
    longer(longer(longer(word(t), angle_addr(t)), addr_spec(t)), domain(t))
}

pub fn scan_received_token(s: &[u8], i: usize) -> (r: Option<usize>)
    requires
        i <= s.len(),
    ensures
        agrees(r, received_token(s@.skip(i as int))),
        r matches Some(n) ==> i + n <= s.len(),
{
    reveal(received_token);
    let ghost t = s@.skip(i as int);
    let w = scan_word(s, i);
    let a = scan_angle_addr(s, i);
    let x = longer_exec(w, a);
    assert(agrees(x, longer(word(t), angle_addr(t))));
    let b = scan_addr_spec(s, i);
    let y = longer_exec(x, b);
    assert(agrees(y, longer(longer(word(t), angle_addr(t)), addr_spec(t))));
    let d = scan_domain(s, i);
    let z = longer_exec(y, d);
    assert(agrees(z, longer(longer(longer(word(t), angle_addr(t)), addr_spec(t)), domain(t))));
    z
}

/// A received-token is whichever of a word, an angle-addr, an addr-spec and
/// a domain matches furthest: each of the four that matches is covered by
/// it, and what it takes is what one of them takes.
pub proof fn lemma_received_token_longest(t: Seq<u8>)
    ensures
        word(t) matches Some(n) ==> (received_token(t) matches Some(m) && m >= n),
        angle_addr(t) matches Some(n) ==> (received_token(t) matches Some(m) && m >= n),
        addr_spec(t) matches Some(n) ==> (received_token(t) matches Some(m) && m >= n),
        domain(t) matches Some(n) ==> (received_token(t) matches Some(m) && m >= n),
        received_token(t) is Some ==> (received_token(t) == word(t) || received_token(t)
            == angle_addr(t) || received_token(t) == addr_spec(t) || received_token(t) == domain(
            t)),
{
    reveal(received_token);
}

proof fn lemma_only_angle(t: Seq<u8>)
    requires
        opt_cfws(t) < t.len(),
        t[opt_cfws(t) as int] == 59 || t[opt_cfws(t) as int] == 60,
    ensures
        word(t) is None,
        addr_spec(t) is None,
        domain(t) is None,
{
    reveal(word);
    reveal(atom);
    reveal(quoted_string);
    reveal(addr_spec);
    reveal(local_part);
    reveal(domain);
    reveal(dot_atom);
    reveal(dot_atom_text);
    reveal(domain_literal);
    let a = opt_cfws(t);
    let u = t.skip(a as int);
    assert(u[0] == t[a as int]);
    lemma_classes(u[0]);
    assert(rfc_specials()[7] == 59);
    assert(rfc_specials()[2] == 60);
    assert(class_run(Class::Atext, u) == 0);
}

/// At an angle-addr after a space, whose two parts are dot-atom-texts and
/// which a `;` follows, the received-token is the angle-addr; at the `;`
/// there is none.
pub proof fn lemma_received_token_angle(l: Seq<u8>, d: Seq<u8>, y: Seq<u8>)
    requires
        is_dot_atom_text(l),
        is_dot_atom_text(d),
        y.len() > 0,
        y[0] == 59,
    ensures
        received_token(seq![32u8] + angle_text(l, d) + y) == Some(angle_text(l, d).len() + 1),
        received_token(y) is None,
{
    reveal(angle_addr);
    let v = angle_text(l, d);
    let t = seq![32u8] + v + y;
    lemma_classes(59);
    assert(rfc_specials()[7] == 59);
    assert(quiet_start(y));
    lemma_no_cfws(y);
    lemma_only_angle(y);
    lemma_received_token_longest(y);
    lemma_angle_addr_takes(l, d, y);
    assert((v + y)[0] == 60);
    lemma_classes(60);
    lemma_cfws_space(v + y);
    assert(t =~= seq![32u8] + (v + y));
    assert(t[1] == 60);
    lemma_only_angle(t);
    lemma_received_token_longest(t);
}

/// path = angle-addr / ([CFWS] "<" [CFWS] ">" [CFWS])
#[verifier::opaque]
pub open spec fn path(t: Seq<u8>) -> Option<nat> {
    match angle_addr(t) {
        Some(n) => Some(n),
        None => {
            let a = opt_cfws(t);
            if starts_with_byte(t.skip(a as int), 60) {
                let b = opt_cfws(t.skip((a + 1) as int));
                if starts_with_byte(t.skip((a + 1 + b) as int), 62) {
                    Some(a + 1 + b + 1 + opt_cfws(t.skip((a + 1 + b + 1) as int)))
                } else {
                    None
                }
            } else {
                None
            }
        },
    }
}

pub fn scan_path(s: &[u8], i: usize) -> (r: Option<usize>)
    requires
        i <= s.len(),
    ensures
        agrees(r, path(s@.skip(i as int))),
        r matches Some(n) ==> i + n <= s.len(),
{
    reveal(path);
    if let Some(n) = scan_angle_addr(s, i) {
        return Some(n);
    }
    let a = scan_opt_cfws(s, i);
    assert(s@.skip(i as int).skip(a as int) == s@.skip(i + a));
    if !byte_at(s, i + a, 60) {
        return None;
    }
    let b = scan_opt_cfws(s, i + a + 1);
    assert(s@.skip(i as int).skip(a + 1) == s@.skip(i + a + 1));
    assert(s@.skip(i as int).skip(a + 1 + b) == s@.skip(i + a + 1 + b));
    if !byte_at(s, i + a + 1 + b, 62) {
        return None;
    }
    let c = scan_opt_cfws(s, i + a + 1 + b + 1);
    assert(s@.skip(i as int).skip(a + 1 + b + 1) == s@.skip(i + a + 1 + b + 1));
    Some(a + 1 + b + 1 + c)
}

/// field-name = 1*ftext
pub open spec fn field_name(t: Seq<u8>) -> Option<nat> {
    let n = class_run(Class::Ftext, t);
    if n > 0 {
        Some(n)
    } else {
        None
    }
}

pub fn scan_field_name(s: &[u8], i: usize) -> (r: Option<usize>)
    requires
        i <= s.len(),
    ensures
        agrees(r, field_name(s@.skip(i as int))),
        r matches Some(n) ==> i + n <= s.len(),
{
    let n = scan_class(Class::Ftext, s, i);
    if n > 0 {
        Some(n)
    } else {
        None
    }
}

/// Neither an address list nor comments and folding white space start with
/// CR LF.
pub proof fn lemma_crlf_starts_no_value()
    ensures
        address_list(crlf()) is None,
        cfws(crlf()) is None,
{
    let t = crlf();
    reveal(fws);
    reveal(cfws);
    reveal(atom);
    reveal(quoted_string);
    reveal(word);
    reveal(phrase);
    reveal(dot_atom_text);
    reveal(dot_atom);
    reveal(local_part);
    reveal(addr_spec);
    reveal(angle_addr);
    reveal(name_addr);
    reveal(mailbox);
    reveal(group);
    reveal(address);
    reveal(address_list);
    assert(class_run(Class::Wsp, t) == 0);
    assert(class_run(Class::Atext, t) == 0);
    assert(fws(t) is None);
    assert(comment_run(t) == 0);
    assert(cfws(t) is None);
    assert(atom(t) is None);
    assert(quoted_string(t) is None);
    assert(words(t) == 0);
    assert(angle_addr(t) is None);
    assert(addr_spec(t) is None);
}

/// Comments and folding white space do not start with `;`.
pub proof fn lemma_no_cfws_at_semicolon(t: Seq<u8>)
    requires
        t.len() > 0,
        t[0] == 59,
    ensures
        cfws(t) is None,
{
    reveal(fws);
    reveal(cfws);
    assert(class_run(Class::Wsp, t) == 0);
    assert(fws(t) is None);
    assert(comment_run(t) == 0);
}

} // verus!
