//! Byte-level building blocks shared by every grammar rule: the byte classes
//! of RFC 5322, runs of one class, CRLF, single bytes and case-insensitive
//! literals.
//!
//! Every rule of the grammar is specified on the *suffix* of the input that
//! starts where the rule is tried, and says how many bytes it consumes.  The
//! executable scanners work on a slice and a start position `i`, and their
//! contract ties them to the rule applied to `s@.skip(i)`.
use vstd::prelude::*;

verus! {

/// `t.skip(a).skip(b)` is the suffix of `t` that starts at `a + b`.
pub broadcast proof fn lemma_skip_skip<A>(t: Seq<A>, a: int, b: int)
    requires
        0 <= a,
        0 <= b,
        a + b <= t.len(),
    ensures
        #[trigger] t.skip(a).skip(b) == t.skip(a + b),
{
    assert(t.skip(a).skip(b) =~= t.skip(a + b));
}

/// Skipping nothing leaves the sequence unchanged.
pub broadcast proof fn lemma_skip_zero<A>(t: Seq<A>)
    ensures
        #[trigger] t.skip(0) == t,
{
    assert(t.skip(0) =~= t);
}

pub broadcast group group_skip {
    lemma_skip_skip,
    lemma_skip_zero,
}

/// What an executable scanner returned agrees with what a rule consumes.
pub open spec fn agrees(r: Option<usize>, x: Option<nat>) -> bool {
    match r {
        Some(n) => x == Some(n as nat),
        None => x is None,
    }
}

/// The number of bytes of an optional match (zero when it fails).
pub open spec fn or_zero(x: Option<nat>) -> nat {
    match x {
        Some(n) => n,
        None => 0,
    }
}

/// The byte classes of RFC 5322 section 3 (and RFC 5234 for WSP, VCHAR and DIGIT).
#[derive(Clone, Copy, PartialEq, Eq, Structural)]
pub enum Class {
    /// SP or HTAB
    Wsp,
    /// visible characters, 0x21 to 0x7e
    Vchar,
    /// `0` to `9`
    Digit,
    /// the characters of an atom
    Atext,
    /// the characters of a comment that need no quoting
    Ctext,
    /// the characters of a quoted string that need no quoting
    Qtext,
    /// the characters of a domain literal
    Dtext,
    /// the characters of a field name
    Ftext,
}

pub open spec fn is_alpha(b: u8) -> bool {
    (65 <= b <= 90) || (97 <= b <= 122)
}

pub open spec fn in_class(c: Class, b: u8) -> bool {
    match c {
        Class::Wsp => b == 32 || b == 9,
        Class::Vchar => 33 <= b <= 126,
        Class::Digit => 48 <= b <= 57,
        Class::Atext => is_alpha(b) || (48 <= b <= 57) || b == 33 || (35 <= b <= 39) || b == 42
            || b == 43 || b == 45 || b == 47 || b == 61 || b == 63 || (94 <= b <= 96) || (123 <= b
            <= 126),
        Class::Ctext => (33 <= b <= 39) || (42 <= b <= 91) || (93 <= b <= 126),
        Class::Qtext => b == 33 || (35 <= b <= 91) || (93 <= b <= 126),
        Class::Dtext => (33 <= b <= 90) || (94 <= b <= 126),
        Class::Ftext => (33 <= b <= 57) || (59 <= b <= 126),
    }
}

/// Whether `b` belongs to the class `c`.
pub fn class_has(c: Class, b: u8) -> (r: bool)
    ensures
        r == in_class(c, b),
{
    match c {
        Class::Wsp => b == 32 || b == 9,
        Class::Vchar => 33 <= b && b <= 126,
        Class::Digit => 48 <= b && b <= 57,
        Class::Atext => (65 <= b && b <= 90) || (97 <= b && b <= 122) || (48 <= b && b <= 57) || b
            == 33 || (35 <= b && b <= 39) || b == 42 || b == 43 || b == 45 || b == 47 || b == 61
            || b == 63 || (94 <= b && b <= 96) || (123 <= b && b <= 126),
        Class::Ctext => (33 <= b && b <= 39) || (42 <= b && b <= 91) || (93 <= b && b <= 126),
        Class::Qtext => b == 33 || (35 <= b && b <= 91) || (93 <= b && b <= 126),
        Class::Dtext => (33 <= b && b <= 90) || (94 <= b && b <= 126),
        Class::Ftext => (33 <= b && b <= 57) || (59 <= b && b <= 126),
    }
}

/// The length of the longest prefix of `t` made of bytes of class `c`.
pub open spec fn class_run(c: Class, t: Seq<u8>) -> nat
    decreases t.len(),
{
    if t.len() > 0 && in_class(c, t[0]) {
        1 + class_run(c, t.skip(1))
    } else {
        0
    }
}

/// The characters that RFC 5322 reserves as delimiters: `(`, `)`, `<`, `>`,
/// `[`, `]`, `:`, `;`, `@`, `\`, `,`, `.` and the double quote.
pub open spec fn rfc_specials() -> Seq<u8> {
    seq![40u8, 41, 60, 62, 91, 93, 58, 59, 64, 92, 44, 46, 34]
}

/// The byte classes as RFC 5322 describes them: each text class is the
/// visible characters less the ones it quotes or uses as delimiters.
pub proof fn lemma_classes(b: u8)
    ensures
        in_class(Class::Vchar, b) <==> 0x21 <= b <= 0x7e,
        in_class(Class::Wsp, b) <==> (b == 0x20 || b == 0x09),
        in_class(Class::Digit, b) <==> 0x30 <= b <= 0x39,
        in_class(Class::Atext, b) <==> in_class(Class::Vchar, b) && !rfc_specials().contains(b),
        in_class(Class::Ctext, b) <==> in_class(Class::Vchar, b) && b != 0x28 && b != 0x29 && b
            != 0x5c,
        in_class(Class::Qtext, b) <==> in_class(Class::Vchar, b) && b != 0x22 && b != 0x5c,
        in_class(Class::Dtext, b) <==> in_class(Class::Vchar, b) && b != 0x5b && b != 0x5d && b
            != 0x5c,
        in_class(Class::Ftext, b) <==> in_class(Class::Vchar, b) && b != 0x3a,
{
    let sp = rfc_specials();
    if sp.contains(b) {
        let k = choose|k: int| 0 <= k < sp.len() && sp[k] == b;
        assert(0 <= k < 13);
    } else {
        assert(sp[0] == 40 && sp[1] == 41 && sp[2] == 60 && sp[3] == 62 && sp[4] == 91 && sp[5]
            == 93 && sp[6] == 58 && sp[7] == 59 && sp[8] == 64 && sp[9] == 92 && sp[10] == 44
            && sp[11] == 46 && sp[12] == 34);
        assert(b != 40 && b != 41 && b != 60 && b != 62 && b != 91 && b != 93 && b != 58 && b
            != 59 && b != 64 && b != 92 && b != 44 && b != 46 && b != 34) by {
            if b == 40 { assert(sp[0] == b); }
            if b == 41 { assert(sp[1] == b); }
            if b == 60 { assert(sp[2] == b); }
            if b == 62 { assert(sp[3] == b); }
            if b == 91 { assert(sp[4] == b); }
            if b == 93 { assert(sp[5] == b); }
            if b == 58 { assert(sp[6] == b); }
            if b == 59 { assert(sp[7] == b); }
            if b == 64 { assert(sp[8] == b); }
            if b == 92 { assert(sp[9] == b); }
            if b == 44 { assert(sp[10] == b); }
            if b == 46 { assert(sp[11] == b); }
            if b == 34 { assert(sp[12] == b); }
        }
    }
}

/// The run of class `c` at the start of `t` lies within `t`, holds only
/// bytes of the class, and ends at the end of `t` or before a byte outside
/// the class.
pub proof fn lemma_class_run(c: Class, t: Seq<u8>)
    ensures
        class_run(c, t) <= t.len(),
        forall|i: int| 0 <= i < class_run(c, t) ==> in_class(c, #[trigger] t[i]),
        class_run(c, t) < t.len() ==> !in_class(c, t[class_run(c, t) as int]),
    decreases t.len(),
{
    if t.len() > 0 && in_class(c, t[0]) {
        lemma_class_run(c, t.skip(1));
        assert forall|i: int| 0 <= i < class_run(c, t) implies in_class(c, #[trigger] t[i]) by {
            if i > 0 {
                assert(t[i] == t.skip(1)[i - 1]);
            }
        }
    }
}

/// A run of class `c` does not reach into what follows `x` when that does
/// not start with a byte of the class.
pub proof fn lemma_class_run_append(c: Class, x: Seq<u8>, y: Seq<u8>)
    requires
        !(y.len() > 0 && in_class(c, y[0])),
    ensures
        class_run(c, x + y) == class_run(c, x),
    decreases x.len(),
{
    if x.len() > 0 {
        assert((x + y).skip(1) =~= x.skip(1) + y);
        lemma_class_run_append(c, x.skip(1), y);
    } else {
        assert(x + y =~= y);
    }
}

/// The number of bytes of class `c` that follow position `i`.
pub fn scan_class(c: Class, s: &[u8], i: usize) -> (n: usize)
    requires
        i <= s.len(),
    ensures
        i + n <= s.len(),
        n == class_run(c, s@.skip(i as int)),
{
    broadcast use group_skip;

    let mut j = i;
    while j < s.len() && class_has(c, s[j])
        invariant
            i <= j <= s.len(),
            class_run(c, s@.skip(i as int)) == (j - i) + class_run(c, s@.skip(j as int)),
        decreases s@.len() - j,
    {
        assert(s@.skip(j as int).skip(1) == s@.skip(j + 1));
        j = j + 1;
    }
    j - i
}

/// `t` starts with the byte `b`.
pub open spec fn starts_with_byte(t: Seq<u8>, b: u8) -> bool {
    t.len() > 0 && t[0] == b
}

/// Whether the byte at position `i` is `b`.
pub fn byte_at(s: &[u8], i: usize, b: u8) -> (r: bool)
    requires
        i <= s.len(),
    ensures
        r == starts_with_byte(s@.skip(i as int), b),
{
    i < s.len() && s[i] == b
}

/// Whether the byte at position `i` belongs to the class `c`.
pub fn class_at(c: Class, s: &[u8], i: usize) -> (r: bool)
    requires
        i <= s.len(),
    ensures
        r == (s@.skip(i as int).len() > 0 && in_class(c, s@.skip(i as int)[0])),
{
    i < s.len() && class_has(c, s[i])
}

/// `t` starts with CR LF.
pub open spec fn starts_crlf(t: Seq<u8>) -> bool {
    t.len() >= 2 && t[0] == 13 && t[1] == 10
}

pub open spec fn crlf() -> Seq<u8> {
    seq![13u8, 10u8]
}

/// Whether CR LF follows position `i`.
pub fn crlf_at(s: &[u8], i: usize) -> (r: bool)
    requires
        i <= s.len(),
    ensures
        r == starts_crlf(s@.skip(i as int)),
{
    i < s.len() && s.len() - i >= 2 && s[i] == 13 && s[i + 1] == 10
}

/// ASCII lower case of one byte.
pub open spec fn ascii_lower(b: u8) -> u8 {
    if 65 <= b <= 90 {
        (b + 32) as u8
    } else {
        b
    }
}

pub fn to_lower(b: u8) -> (r: u8)
    ensures
        r == ascii_lower(b),
{
    if 65 <= b && b <= 90 {
        b + 32
    } else {
        b
    }
}

/// `t` starts with `lit` when both are put in ASCII lower case.
pub open spec fn starts_ci(t: Seq<u8>, lit: Seq<u8>) -> bool {
    &&& lit.len() <= t.len()
    &&& forall|k: int| 0 <= k < lit.len() ==> ascii_lower(#[trigger] t[k]) == ascii_lower(lit[k])
}

/// `a` and `b` are the same bytes, except that ASCII letters among the
/// first `k` may differ in case.
pub open spec fn same_up_to_case(a: Seq<u8>, b: Seq<u8>, k: nat) -> bool {
    &&& a.len() == b.len()
    &&& k <= a.len()
    &&& forall|i: int| 0 <= i < k ==> ascii_lower(#[trigger] a[i]) == ascii_lower(b[i])
    &&& forall|i: int| k <= i < a.len() ==> #[trigger] a[i] == b[i]
}

/// Whether the bytes after position `i` start with `lit`, ignoring the case of
/// ASCII letters.
pub fn match_ci(s: &[u8], i: usize, lit: &[u8]) -> (r: bool)
    requires
        i <= s.len(),
    ensures
        r == starts_ci(s@.skip(i as int), lit@),
{
    if s.len() - i < lit.len() {
        return false;
    }
    let mut k: usize = 0;
    while k < lit.len()
        invariant
            i + lit.len() <= s.len(),
            0 <= k <= lit@.len(),
            forall|m: int|
                0 <= m < k ==> ascii_lower(#[trigger] s@.skip(i as int)[m]) == ascii_lower(lit@[m]),
        decreases lit@.len() - k,
    {
        if to_lower(s[i + k]) != to_lower(lit[k]) {
            assert(ascii_lower(s@.skip(i as int)[k as int]) != ascii_lower(lit@[k as int]));
            return false;
        }
        k = k + 1;
    }
    true
}

/// Appends `b` to `out`.
pub fn append(out: &mut Vec<u8>, b: &[u8])
    ensures
        final(out)@ == old(out)@ + b@,
{
    let mut k: usize = 0;
    while k < b.len()
        invariant
            0 <= k <= b@.len(),
            out@ == old(out)@ + b@.take(k as int),
        decreases b@.len() - k,
    {
        out.push(b[k]);
        assert(b@.take(k + 1) =~= b@.take(k as int).push(b@[k as int]));
        k = k + 1;
    }
    assert(b@.take(b@.len() as int) =~= b@);
}

} // verus!
