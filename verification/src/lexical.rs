//! The lexical tokens of RFC 5322 section 3.2: folding white space,
//! comments, atoms, quoted strings, words, phrases and unstructured text.
//!
//! Each rule is a spec function on the suffix of the input where it is
//! tried, giving the number of bytes it consumes, and a scanner that computes
//! it.  Alternatives are tried in order and the first that matches is taken;
//! repetitions are greedy; an optional element is taken whenever it matches.
use vstd::prelude::*;
use crate::scan::{
    agrees, byte_at, class_at, class_has, class_run, group_skip, in_class, or_zero, scan_class,
    starts_crlf, starts_with_byte, Class, crlf_at, crlf, lemma_class_run, lemma_class_run_append,
    lemma_classes,
};

verus! {

broadcast use group_skip;

/// FWS = ([*WSP CRLF] 1*WSP): a fold, or a run of blanks.
#[verifier::opaque]
pub open spec fn fws(t: Seq<u8>) -> Option<nat> {
    let a = class_run(Class::Wsp, t);
    let u = t.skip(a as int);
    if starts_crlf(u) && u.len() > 2 && in_class(Class::Wsp, u[2]) {
        Some(a + 2 + class_run(Class::Wsp, u.skip(2)))
    } else if t.len() > 0 && in_class(Class::Wsp, t[0]) {
        Some(a)
    } else {
        None
    }
}

pub open spec fn opt_fws(t: Seq<u8>) -> nat {
    or_zero(fws(t))
}

/// Every byte of `w` is a blank.
pub open spec fn blanks(w: Seq<u8>) -> bool {
    forall|i: int| 0 <= i < w.len() ==> in_class(Class::Wsp, #[trigger] w[i])
}

proof fn lemma_blanks_run(w: Seq<u8>, x: Seq<u8>)
    requires
        blanks(w),
        !(x.len() > 0 && in_class(Class::Wsp, x[0])),
    ensures
        class_run(Class::Wsp, w + x) == w.len(),
{
    lemma_class_run_append(Class::Wsp, w, x);
    lemma_class_run(Class::Wsp, w);
}

/// Folding white space takes a run of blanks, and a line break between two
/// runs of blanks when the second is not empty; a line break with no blank
/// after it is not taken.
pub proof fn lemma_fws_takes(w1: Seq<u8>, w2: Seq<u8>, x: Seq<u8>)
    requires
        blanks(w1),
        blanks(w2),
        !(x.len() > 0 && in_class(Class::Wsp, x[0])),
    ensures
        w2.len() > 0 ==> fws(w1 + crlf() + w2 + x) == Some(w1.len() + 2 + w2.len()),
        w1.len() > 0 ==> fws(w1 + crlf() + x) == Some(w1.len()),
        w1.len() > 0 && quiet_start(x) ==> fws(w1 + x) == Some(w1.len()),
{
    reveal(fws);
    let c = crlf();
    lemma_blanks_run(w1, c + w2 + x);
    assert(w1 + c + w2 + x =~= w1 + (c + w2 + x));
    let u = w1 + c + w2 + x;
    assert(u.skip(w1.len() as int) =~= c + w2 + x);
    assert(u.skip(w1.len() as int).skip(2) =~= w2 + x);
    lemma_blanks_run(w2, x);
    if w2.len() > 0 {
        assert((c + w2 + x)[2] == w2[0]);
    }
    if w1.len() > 0 {
        assert(u[0] == w1[0]);
    }
    let v = w1 + c + x;
    assert(v =~= w1 + (c + x));
    lemma_blanks_run(w1, c + x);
    assert(v.skip(w1.len() as int) =~= c + x);
    if w1.len() > 0 {
        assert(v[0] == w1[0]);
        if x.len() > 0 {
            assert((c + x)[2] == x[0]);
        }
    }
    lemma_blanks_run(w1, x);
    if w1.len() > 0 && quiet_start(x) {
        assert((w1 + x)[0] == w1[0]);
        assert((w1 + x).skip(w1.len() as int) =~= x);
    }
}

pub fn scan_fws(s: &[u8], i: usize) -> (r: Option<usize>)
    requires
        i <= s.len(),
    ensures
        agrees(r, fws(s@.skip(i as int))),
        r matches Some(n) ==> i + n <= s.len(),
{
    reveal(fws);
    let a = scan_class(Class::Wsp, s, i);
    let j = i + a;
    if crlf_at(s, j) && s.len() - j > 2 && class_has(Class::Wsp, s[j + 2]) {
        let b = scan_class(Class::Wsp, s, j + 2);
        assert(s@.skip(i as int).skip(a as int).skip(2) == s@.skip(j + 2));
        Some(a + 2 + b)
    } else if class_at(Class::Wsp, s, i) {
        Some(a)
    } else {
        None
    }
}

pub fn scan_opt_fws(s: &[u8], i: usize) -> (n: usize)
    requires
        i <= s.len(),
    ensures
        n == opt_fws(s@.skip(i as int)),
        i + n <= s.len(),
{
    match scan_fws(s, i) {
        Some(n) => n,
        None => 0,
    }
}

/// quoted-pair = "\" (VCHAR / WSP)
pub open spec fn quoted_pair(t: Seq<u8>) -> bool {
    t.len() >= 2 && t[0] == 92 && (in_class(Class::Vchar, t[1]) || in_class(Class::Wsp, t[1]))
}

pub fn quoted_pair_at(s: &[u8], i: usize) -> (r: bool)
    requires
        i <= s.len(),
    ensures
        r == quoted_pair(s@.skip(i as int)),
{
    s.len() - i >= 2 && s[i] == 92 && (class_has(Class::Vchar, s[i + 1]) || class_has(
        Class::Wsp,
        s[i + 1],
    ))
}

/// ccontent = ctext / quoted-pair / comment
pub open spec fn ccontent(t: Seq<u8>) -> Option<nat>
    decreases t.len(), 1nat,
{
    if t.len() > 0 && in_class(Class::Ctext, t[0]) {
        Some(1)
    } else if quoted_pair(t) {
        Some(2)
    } else {
        comment(t)
    }
}

/// comment = "(" *([FWS] ccontent) [FWS] ")"
pub open spec fn comment(t: Seq<u8>) -> Option<nat>
    decreases t.len(), 0nat,
{
    if t.len() > 0 && t[0] == 40 {
        let b = comment_body(t.skip(1));
        let v = t.skip((1 + b) as int);
        let f = opt_fws(v);
        if starts_with_byte(v.skip(f as int), 41) {
            Some(1 + b + f + 1)
        } else {
            None
        }
    } else {
        None
    }
}

/// *([FWS] ccontent), the inside of a comment.
pub open spec fn comment_body(t: Seq<u8>) -> nat
    decreases t.len(), 2nat,
{
    let f = opt_fws(t);
    if f <= t.len() {
        match ccontent(t.skip(f as int)) {
            Some(c) => if 0 < f + c <= t.len() {
                f + c + comment_body(t.skip((f + c) as int))
            } else {
                0
            },
            None => 0,
        }
    } else {
        0
    }
}

pub fn scan_ccontent(s: &[u8], i: usize) -> (r: Option<usize>)
    requires
        i <= s.len(),
    ensures
        agrees(r, ccontent(s@.skip(i as int))),
        r matches Some(n) ==> 0 < n && i + n <= s.len(),
    decreases s@.len() - i, 1nat,
{
    if class_at(Class::Ctext, s, i) {
        Some(1)
    } else if quoted_pair_at(s, i) {
        Some(2)
    } else {
        scan_comment(s, i)
    }
}

pub fn scan_comment(s: &[u8], i: usize) -> (r: Option<usize>)
    requires
        i <= s.len(),
    ensures
        agrees(r, comment(s@.skip(i as int))),
        r matches Some(n) ==> 0 < n && i + n <= s.len(),
    decreases s@.len() - i, 0nat,
{
    if !byte_at(s, i, 40) {
        return None;
    }
    let start = i + 1;
    let mut j = start;
    loop
        invariant
            start == i + 1,
            start <= j <= s.len(),
            comment_body(s@.skip(start as int)) == (j - start) + comment_body(s@.skip(j as int)),
        ensures
            start <= j <= s.len(),
            comment_body(s@.skip(start as int)) == (j - start),
        decreases s@.len() - j,
    {
        let f = scan_opt_fws(s, j);
        match scan_ccontent(s, j + f) {
            Some(c) => {
                assert(s@.skip(j as int).skip(f as int) == s@.skip(j + f));
                assert(s@.skip(j as int).skip(f + c) == s@.skip(j + f + c));
                j = j + f + c;
            },
            None => {
                assert(s@.skip(j as int).skip(f as int) == s@.skip(j + f));
                break ;
            },
        }
    }
    let f = scan_opt_fws(s, j);
    assert(s@.skip(i as int).skip(1) == s@.skip(start as int));
    assert(s@.skip(i as int).skip(1 + (j - start)) == s@.skip(j as int));
    assert(s@.skip(j as int).skip(f as int) == s@.skip(j + f));
    if byte_at(s, j + f, 41) {
        Some(j + f + 1 - i)
    } else {
        None
    }
}

/// 1*([FWS] comment), the comments that open a CFWS.
pub open spec fn comment_run(t: Seq<u8>) -> nat
    decreases t.len(),
{
    let f = opt_fws(t);
    if f <= t.len() {
        match comment(t.skip(f as int)) {
            Some(c) => if 0 < f + c <= t.len() {
                f + c + comment_run(t.skip((f + c) as int))
            } else {
                0
            },
            None => 0,
        }
    } else {
        0
    }
}

/// CFWS = (1*([FWS] comment) [FWS]) / FWS
#[verifier::opaque]
pub open spec fn cfws(t: Seq<u8>) -> Option<nat> {
    let k = comment_run(t);
    if k > 0 {
        Some(k + opt_fws(t.skip(k as int)))
    } else {
        fws(t)
    }
}

pub open spec fn opt_cfws(t: Seq<u8>) -> nat {
    or_zero(cfws(t))
}

#[verifier::rlimit(40)]
pub fn scan_cfws(s: &[u8], i: usize) -> (r: Option<usize>)
    requires
        i <= s.len(),
    ensures
        agrees(r, cfws(s@.skip(i as int))),
        r matches Some(n) ==> i + n <= s.len(),
{
    reveal(cfws);
    let mut j = i;
    loop
        invariant
            i <= j <= s.len(),
            comment_run(s@.skip(i as int)) == (j - i) + comment_run(s@.skip(j as int)),
        ensures
            i <= j <= s.len(),
            comment_run(s@.skip(i as int)) == (j - i),
        decreases s@.len() - j,
    {
        let f = scan_opt_fws(s, j);
        match scan_comment(s, j + f) {
            Some(c) => {
                assert(s@.skip(j as int).skip(f as int) == s@.skip(j + f));
                assert(s@.skip(j as int).skip(f + c) == s@.skip(j + f + c));
                j = j + f + c;
            },
            None => {
                assert(s@.skip(j as int).skip(f as int) == s@.skip(j + f));
                break ;
            },
        }
    }
    if j > i {
        let f = scan_opt_fws(s, j);
        assert(s@.skip(i as int).skip(j - i) == s@.skip(j as int));
        Some(j - i + f)
    } else {
        scan_fws(s, i)
    }
}

pub fn scan_opt_cfws(s: &[u8], i: usize) -> (n: usize)
    requires
        i <= s.len(),
    ensures
        n == opt_cfws(s@.skip(i as int)),
        i + n <= s.len(),
{
    match scan_cfws(s, i) {
        Some(n) => n,
        None => 0,
    }
}

/// atom = [CFWS] 1*atext [CFWS]
#[verifier::opaque]
pub open spec fn atom(t: Seq<u8>) -> Option<nat> {
    let a = opt_cfws(t);
    let n = class_run(Class::Atext, t.skip(a as int));
    if n > 0 {
        Some(a + n + opt_cfws(t.skip((a + n) as int)))
    } else {
        None
    }
}

pub fn scan_atom(s: &[u8], i: usize) -> (r: Option<usize>)
    requires
        i <= s.len(),
    ensures
        agrees(r, atom(s@.skip(i as int))),
        r matches Some(n) ==> i + n <= s.len(),
{
    reveal(atom);
    let a = scan_opt_cfws(s, i);
    let n = scan_class(Class::Atext, s, i + a);
    assert(s@.skip(i as int).skip(a as int) == s@.skip(i + a));
    if n > 0 {
        let b = scan_opt_cfws(s, i + a + n);
        assert(s@.skip(i as int).skip(a + n) == s@.skip(i + a + n));
        Some(a + n + b)
    } else {
        None
    }
}

/// *("." 1*atext), the tail of a dot-atom-text.
pub open spec fn dot_tail(t: Seq<u8>) -> nat
    decreases t.len(),
{
    if starts_with_byte(t, 46) {
        let m = class_run(Class::Atext, t.skip(1));
        if 0 < m && 1 + m <= t.len() {
            1 + m + dot_tail(t.skip((1 + m) as int))
        } else {
            0
        }
    } else {
        0
    }
}

/// dot-atom-text = 1*atext *("." 1*atext)
#[verifier::opaque]
pub open spec fn dot_atom_text(t: Seq<u8>) -> Option<nat> {
    let n = class_run(Class::Atext, t);
    if n > 0 {
        Some(n + dot_tail(t.skip(n as int)))
    } else {
        None
    }
}

pub fn scan_dot_atom_text(s: &[u8], i: usize) -> (r: Option<usize>)
    requires
        i <= s.len(),
    ensures
        agrees(r, dot_atom_text(s@.skip(i as int))),
        r matches Some(n) ==> i + n <= s.len(),
{
    reveal(dot_atom_text);
    let n = scan_class(Class::Atext, s, i);
    if n == 0 {
        return None;
    }
    let start = i + n;
    let mut j = start;
    loop
        invariant
            start <= j <= s.len(),
            dot_tail(s@.skip(start as int)) == (j - start) + dot_tail(s@.skip(j as int)),
        ensures
            start <= j <= s.len(),
            dot_tail(s@.skip(start as int)) == (j - start),
        decreases s@.len() - j,
    {
        if !byte_at(s, j, 46) {
            break ;
        }
        let m = scan_class(Class::Atext, s, j + 1);
        assert(s@.skip(j as int).skip(1) == s@.skip(j + 1));
        if m == 0 {
            break ;
        }
        assert(s@.skip(j as int).skip(1 + m) == s@.skip(j + 1 + m));
        j = j + 1 + m;
    }
    assert(s@.skip(i as int).skip(n as int) == s@.skip(start as int));
    Some(j - i)
}

/// dot-atom = [CFWS] dot-atom-text [CFWS]
#[verifier::opaque]
pub open spec fn dot_atom(t: Seq<u8>) -> Option<nat> {
    let a = opt_cfws(t);
    match dot_atom_text(t.skip(a as int)) {
        Some(n) => Some(a + n + opt_cfws(t.skip((a + n) as int))),
        None => None,
    }
}

pub fn scan_dot_atom(s: &[u8], i: usize) -> (r: Option<usize>)
    requires
        i <= s.len(),
    ensures
        agrees(r, dot_atom(s@.skip(i as int))),
        r matches Some(n) ==> i + n <= s.len(),
{
    reveal(dot_atom);
    let a = scan_opt_cfws(s, i);
    assert(s@.skip(i as int).skip(a as int) == s@.skip(i + a));
    match scan_dot_atom_text(s, i + a) {
        Some(n) => {
            let b = scan_opt_cfws(s, i + a + n);
            assert(s@.skip(i as int).skip(a + n) == s@.skip(i + a + n));
            Some(a + n + b)
        },
        None => None,
    }
}

/// Nothing that could begin comments or folding white space: not a blank,
/// an opening parenthesis or a line break followed by a blank.
pub open spec fn quiet_start(t: Seq<u8>) -> bool {
    t.len() > 0 ==> !in_class(Class::Wsp, t[0]) && t[0] != 40 && !(starts_crlf(t) && t.len() > 2
        && in_class(Class::Wsp, t[2]))
}

proof fn lemma_comment_body_takes(c: Seq<u8>, s: Seq<u8>)
    requires
        class_or_blank(Class::Ctext, c),
        s.len() > 0,
        s[0] == 41,
    ensures
        comment_body(c + s) <= c.len(),
        comment_body(c + s) + opt_fws((c + s).skip(comment_body(c + s) as int)) == c.len(),
    decreases c.len(),
{
    reveal(fws);
    let t = c + s;
    let r: int = class_run(Class::Wsp, c) as int;
    lemma_class_run(Class::Wsp, c);
    lemma_class_run_append(Class::Wsp, c, s);
    if r == c.len() {
        assert(t.skip(r) =~= s);
        assert(opt_fws(t) == r);
        assert(ccontent(s) is None);
        assert(comment_body(t) == 0);
        assert(t.skip(0) =~= t);
    } else {
        assert(t[r] == c[r]);
        assert(t.skip(r)[0] == c[r]);
        assert(opt_fws(t) == r);
        assert(ccontent(t.skip(r)) == Some(1nat));
        let rest = c.skip(r + 1);
        lemma_class_or_blank_skip(Class::Ctext, c, r + 1);
        assert(t.skip(r + 1) =~= rest + s);
        lemma_comment_body_takes(rest, s);
        let b: int = comment_body(rest + s) as int;
        assert(comment_body(t) == r + 1 + b);
        assert(t.skip(r + 1 + b) =~= (rest + s).skip(b));
    }
}

/// A comment whose inside holds only comment characters and blanks is read
/// whole, whatever follows it.
pub proof fn lemma_comment_takes(c: Seq<u8>, y: Seq<u8>)
    requires
        class_or_blank(Class::Ctext, c),
    ensures
        comment(seq![40u8] + c + seq![41u8] + y) == Some(c.len() + 2),
{
    let t = seq![40u8] + c + seq![41u8] + y;
    let s = seq![41u8] + y;
    assert(t[0] == 40);
    assert(t.skip(1) =~= c + s);
    lemma_comment_body_takes(c, s);
    let b: int = comment_body(c + s) as int;
    assert(t.skip(1 + b) =~= (c + s).skip(b));
    assert(t.skip((1 + c.len()) as int) =~= s);
}

/// Comments and folding white space cannot start where nothing could begin
/// them.
pub proof fn lemma_no_cfws(t: Seq<u8>)
    requires
        quiet_start(t),
    ensures
        fws(t) is None,
        opt_fws(t) == 0,
        cfws(t) is None,
        opt_cfws(t) == 0,
{
    reveal(fws);
    reveal(cfws);
    assert(class_run(Class::Wsp, t) == 0);
    assert(t.skip(0) =~= t);
    assert(fws(t) is None);
    assert(comment_run(t) == 0);
}

/// A single space before anything that cannot continue white space is
/// folding white space of one byte.
pub proof fn lemma_fws_space(t: Seq<u8>)
    requires
        quiet_start(t),
    ensures
        fws(seq![32u8] + t) == Some(1nat),
        opt_fws(seq![32u8] + t) == 1,
{
    reveal(fws);
    let u = seq![32u8] + t;
    assert(u.skip(1) =~= t);
    assert(class_run(Class::Wsp, t) == 0);
    assert(class_run(Class::Wsp, u) == 1);
}

/// A single space before anything that cannot continue comments or white
/// space is comments and folding white space of one byte.
pub proof fn lemma_cfws_space(t: Seq<u8>)
    requires
        quiet_start(t),
    ensures
        cfws(seq![32u8] + t) == Some(1nat),
        opt_cfws(seq![32u8] + t) == 1,
{
    reveal(cfws);
    let u = seq![32u8] + t;
    lemma_fws_space(t);
    assert(u.skip(1) =~= t);
    assert(comment(t) is None);
    assert(comment_run(u) == 0);
}

/// Atext and dots, each dot followed by atext.
pub open spec fn dotted(x: Seq<u8>) -> bool {
    &&& forall|i: int| 0 <= i < x.len() ==> in_class(Class::Atext, #[trigger] x[i]) || x[i] == 46
    &&& forall|i: int|
        0 <= i < x.len() && #[trigger] x[i] == 46 ==> i + 1 < x.len() && in_class(
            Class::Atext,
            x[i + 1],
        )
}

/// The text of a dot-atom: atext in runs separated by single dots.
pub open spec fn is_dot_atom_text(x: Seq<u8>) -> bool {
    x.len() > 0 && in_class(Class::Atext, x[0]) && dotted(x)
}

/// What may follow a dot-atom-text without extending it.
pub open spec fn ends_dot_atom(y: Seq<u8>) -> bool {
    y.len() > 0 ==> !in_class(Class::Atext, y[0]) && y[0] != 46
}

proof fn lemma_dotted_skip(x: Seq<u8>, k: int)
    requires
        dotted(x),
        0 <= k <= x.len(),
    ensures
        dotted(x.skip(k)),
{
    let z = x.skip(k);
    assert forall|i: int| 0 <= i < z.len() implies in_class(Class::Atext, #[trigger] z[i]) || z[i]
        == 46 by {
        assert(z[i] == x[i + k]);
    }
    assert forall|i: int| 0 <= i < z.len() && #[trigger] z[i] == 46 implies i + 1 < z.len()
        && in_class(Class::Atext, z[i + 1]) by {
        assert(z[i] == x[i + k]);
        assert(x[i + k] == 46);
        assert(z[i + 1] == x[i + k + 1]);
    }
}

proof fn lemma_dot_tail_takes(x: Seq<u8>, y: Seq<u8>)
    requires
        dotted(x),
        x.len() > 0 ==> x[0] == 46,
        ends_dot_atom(y),
    ensures
        dot_tail(x + y) == x.len(),
    decreases x.len(),
{
    let t = x + y;
    if x.len() == 0 {
        assert(t =~= y);
    } else {
        assert(x[0] == 46);
        let x1 = x.skip(1);
        assert(t.skip(1) =~= x1 + y);
        lemma_class_run_append(Class::Atext, x1, y);
        lemma_class_run(Class::Atext, x1);
        let r: int = class_run(Class::Atext, x1) as int;
        assert(x1[0] == x[1]);
        assert(r > 0);
        let x2 = x.skip(1 + r);
        lemma_dotted_skip(x, 1 + r);
        if x2.len() > 0 {
            assert(x2[0] == x1[r as int]);
            assert(x2[0] == x[1 + r]);
        }
        assert(t.skip(1 + r) =~= x2 + y);
        lemma_dot_tail_takes(x2, y);
    }
}

/// A dot-atom-text takes all of a run of atext separated by single dots,
/// up to the first byte that cannot continue it.
pub proof fn lemma_dot_atom_text_takes(x: Seq<u8>, y: Seq<u8>)
    requires
        is_dot_atom_text(x),
        ends_dot_atom(y),
    ensures
        dot_atom_text(x + y) == Some(x.len()),
{
    reveal(dot_atom_text);
    let t = x + y;
    lemma_class_run_append(Class::Atext, x, y);
    lemma_class_run(Class::Atext, x);
    let r = class_run(Class::Atext, x);
    assert(t[0] == x[0]);
    let x2 = x.skip(r as int);
    lemma_dotted_skip(x, r as int);
    if x2.len() > 0 {
        assert(x2[0] == x[r as int]);
    }
    assert(t.skip(r as int) =~= x2 + y);
    lemma_dot_tail_takes(x2, y);
}

/// A dot-atom with nothing around it is its text.
pub proof fn lemma_dot_atom_takes(x: Seq<u8>, y: Seq<u8>)
    requires
        is_dot_atom_text(x),
        ends_dot_atom(y),
        quiet_start(y),
    ensures
        dot_atom(x + y) == Some(x.len()),
        dot_atom(seq![32u8] + x + y) == Some(x.len() + 1),
{
    reveal(dot_atom);
    let t = x + y;
    lemma_classes(x[0]);
    assert(t[0] == x[0]);
    lemma_no_cfws(t);
    assert(t.skip(0) =~= t);
    lemma_dot_atom_text_takes(x, y);
    assert(t.skip(x.len() as int) =~= y);
    lemma_no_cfws(y);
    let u = seq![32u8] + x + y;
    lemma_cfws_space(t);
    assert(u =~= seq![32u8] + t);
    assert(u.skip(1) =~= t);
    assert(u.skip((1 + x.len()) as int) =~= y);
}

/// An atom with a space on each side, before anything that cannot begin
/// comments or white space, is read whole with its spaces.
pub proof fn lemma_atom_takes(n: Seq<u8>, y: Seq<u8>)
    requires
        n.len() > 0,
        forall|i: int| 0 <= i < n.len() ==> in_class(Class::Atext, #[trigger] n[i]),
        quiet_start(y),
    ensures
        atom(seq![32u8] + n + seq![32u8] + y) == Some(n.len() + 2),
{
    reveal(atom);
    let t = seq![32u8] + n + seq![32u8] + y;
    let v = n + seq![32u8] + y;
    assert(t =~= seq![32u8] + v);
    assert(v[0] == n[0]);
    lemma_classes(n[0]);
    lemma_cfws_space(v);
    assert(t.skip(1) =~= v);
    lemma_classes(32);
    lemma_class_run_append(Class::Atext, n, seq![32u8] + y);
    lemma_class_run(Class::Atext, n);
    assert(v =~= n + (seq![32u8] + y));
    assert(t.skip((1 + n.len()) as int) =~= seq![32u8] + y);
    lemma_cfws_space(y);
}

/// Folding white space lies within the input.
pub proof fn lemma_fws_bound(t: Seq<u8>)
    ensures
        opt_fws(t) <= t.len(),
{
    reveal(fws);
    let a = class_run(Class::Wsp, t);
    lemma_class_run(Class::Wsp, t);
    let u = t.skip(a as int);
    lemma_class_run(Class::Wsp, u.skip(2));
}

proof fn lemma_comment_run_bound(t: Seq<u8>)
    ensures
        comment_run(t) <= t.len(),
    decreases t.len(),
{
    let f = opt_fws(t);
    if f <= t.len() {
        match comment(t.skip(f as int)) {
            Some(c) => if 0 < f + c <= t.len() {
                lemma_comment_run_bound(t.skip((f + c) as int));
            },
            None => {},
        }
    }
}

/// Comments and folding white space lie within the input.
pub proof fn lemma_cfws_bound(t: Seq<u8>)
    ensures
        opt_cfws(t) <= t.len(),
{
    reveal(cfws);
    lemma_comment_run_bound(t);
    let k = comment_run(t);
    lemma_fws_bound(t.skip(k as int));
    lemma_fws_bound(t);
}

/// The words at the start of the input lie within it.
pub proof fn lemma_words_bound(t: Seq<u8>)
    ensures
        words(t) <= t.len(),
    decreases t.len(),
{
    match word(t) {
        Some(w) => if 0 < w <= t.len() {
            lemma_words_bound(t.skip(w as int));
        },
        None => {},
    }
}

/// qcontent = qtext / quoted-pair
#[verifier::opaque]
pub open spec fn qcontent(t: Seq<u8>) -> Option<nat> {
    if t.len() > 0 && in_class(Class::Qtext, t[0]) {
        Some(1)
    } else if quoted_pair(t) {
        Some(2)
    } else {
        None
    }
}

/// *([FWS] qcontent), the inside of a quoted string.
pub open spec fn qs_body(t: Seq<u8>) -> nat
    decreases t.len(),
{
    let f = opt_fws(t);
    if f <= t.len() {
        match qcontent(t.skip(f as int)) {
            Some(q) => if 0 < f + q <= t.len() {
                f + q + qs_body(t.skip((f + q) as int))
            } else {
                0
            },
            None => 0,
        }
    } else {
        0
    }
}

/// quoted-string = [CFWS] DQUOTE *([FWS] qcontent) [FWS] DQUOTE [CFWS]
#[verifier::opaque]
pub open spec fn quoted_string(t: Seq<u8>) -> Option<nat> {
    let a = opt_cfws(t);
    if starts_with_byte(t.skip(a as int), 34) {
        let b = qs_body(t.skip((a + 1) as int));
        let f = opt_fws(t.skip((a + 1 + b) as int));
        if starts_with_byte(t.skip((a + 1 + b + f) as int), 34) {
            Some(a + 1 + b + f + 1 + opt_cfws(t.skip((a + 1 + b + f + 1) as int)))
        } else {
            None
        }
    } else {
        None
    }
}

fn scan_qs_body(s: &[u8], start: usize) -> (n: usize)
    requires
        start <= s.len(),
    ensures
        n == qs_body(s@.skip(start as int)),
        start + n <= s.len(),
{
    let mut j = start;
    loop
        invariant
            start <= j <= s.len(),
            qs_body(s@.skip(start as int)) == (j - start) + qs_body(s@.skip(j as int)),
        ensures
            start <= j <= s.len(),
            qs_body(s@.skip(start as int)) == (j - start),
        decreases s@.len() - j,
    {
        reveal(qcontent);
        let f = scan_opt_fws(s, j);
        assert(s@.skip(j as int).skip(f as int) == s@.skip(j + f));
        let q = if class_at(Class::Qtext, s, j + f) {
            1
        } else if quoted_pair_at(s, j + f) {
            2
        } else {
            break ;
        };
        assert(s@.skip(j as int).skip(f + q) == s@.skip(j + f + q));
        j = j + f + q;
    }
    j - start
}

/// Every byte of `t` is of class `c` or a blank.
pub open spec fn class_or_blank(c: Class, t: Seq<u8>) -> bool {
    forall|i: int| 0 <= i < t.len() ==> in_class(c, #[trigger] t[i]) || in_class(Class::Wsp, t[i])
}

proof fn lemma_class_or_blank_skip(c: Class, t: Seq<u8>, k: int)
    requires
        class_or_blank(c, t),
        0 <= k <= t.len(),
    ensures
        class_or_blank(c, t.skip(k)),
{
    let u = t.skip(k);
    assert forall|i: int| 0 <= i < u.len() implies in_class(c, #[trigger] u[i]) || in_class(
        Class::Wsp,
        u[i],
    ) by {
        assert(u[i] == t[i + k]);
    }
}

proof fn lemma_qs_body_takes(q: Seq<u8>, s: Seq<u8>)
    requires
        class_or_blank(Class::Qtext, q),
        s.len() > 0,
        s[0] == 34,
    ensures
        qs_body(q + s) <= q.len(),
        qs_body(q + s) + opt_fws((q + s).skip(qs_body(q + s) as int)) == q.len(),
    decreases q.len(),
{
    reveal(fws);
    reveal(qcontent);
    let t = q + s;
    let r: int = class_run(Class::Wsp, q) as int;
    lemma_class_run(Class::Wsp, q);
    lemma_class_run_append(Class::Wsp, q, s);
    if r == q.len() {
        assert(t.skip(r as int) =~= s);
        assert(opt_fws(t) == r);
        assert(qcontent(s) is None);
        assert(qs_body(t) == 0);
        assert(t.skip(0) =~= t);
    } else {
        assert(t[r as int] == q[r as int]);
        assert(t.skip(r as int)[0] == q[r as int]);
        assert(opt_fws(t) == r);
        assert(qcontent(t.skip(r as int)) == Some(1nat));
        let rest = q.skip(r + 1);
        lemma_class_or_blank_skip(Class::Qtext, q, r + 1);
        assert(t.skip(r + 1) =~= rest + s);
        lemma_qs_body_takes(rest, s);
        let b: int = qs_body(rest + s) as int;
        assert(qs_body(t) == r + 1 + b);
        assert(t.skip(r + 1 + b) =~= (rest + s).skip(b as int));
    }
}

/// A quoted string whose inside holds only quotable characters and blanks
/// is read whole, up to whatever follows it that cannot begin comments or
/// white space.
pub proof fn lemma_quoted_string_takes(q: Seq<u8>, y: Seq<u8>)
    requires
        class_or_blank(Class::Qtext, q),
        quiet_start(y),
    ensures
        quoted_string(seq![34u8] + q + seq![34u8] + y) == Some(q.len() + 2),
{
    reveal(quoted_string);
    let t = seq![34u8] + q + seq![34u8] + y;
    let s = seq![34u8] + y;
    assert(t[0] == 34);
    lemma_classes(34);
    lemma_no_cfws(t);
    assert(t.skip(0) =~= t);
    assert(t.skip(1) =~= q + s);
    lemma_qs_body_takes(q, s);
    let b: int = qs_body(q + s) as int;
    assert(t.skip(1 + b) =~= (q + s).skip(b as int));
    assert(t.skip((1 + q.len()) as int) =~= s);
    assert(t.skip((1 + q.len() + 1) as int) =~= y);
    lemma_no_cfws(y);
}

pub fn scan_quoted_string(s: &[u8], i: usize) -> (r: Option<usize>)
    requires
        i <= s.len(),
    ensures
        agrees(r, quoted_string(s@.skip(i as int))),
        r matches Some(n) ==> i + n <= s.len(),
{
    reveal(quoted_string);
    let a = scan_opt_cfws(s, i);
    assert(s@.skip(i as int).skip(a as int) == s@.skip(i + a));
    if !byte_at(s, i + a, 34) {
        return None;
    }
    let start = i + a + 1;
    assert(s@.skip(i as int).skip(a + 1) == s@.skip(start as int));
    let b = scan_qs_body(s, start);
    let j = start + b;
    let f = scan_opt_fws(s, j);
    assert(s@.skip(i as int).skip(a + 1 + b) == s@.skip(j as int));
    assert(s@.skip(i as int).skip(a + 1 + b + f) == s@.skip(j + f));
    if !byte_at(s, j + f, 34) {
        return None;
    }
    let c = scan_opt_cfws(s, j + f + 1);
    assert(s@.skip(i as int).skip(a + 1 + b + f + 1) == s@.skip(j + f + 1));
    Some(a + 1 + b + f + 1 + c)
}

/// word = atom / quoted-string
#[verifier::opaque]
pub open spec fn word(t: Seq<u8>) -> Option<nat> {
    match atom(t) {
        Some(n) => Some(n),
        None => quoted_string(t),
    }
}

pub fn scan_word(s: &[u8], i: usize) -> (r: Option<usize>)
    requires
        i <= s.len(),
    ensures
        agrees(r, word(s@.skip(i as int))),
        r matches Some(n) ==> i + n <= s.len(),
{
    reveal(word);
    match scan_atom(s, i) {
        Some(n) => Some(n),
        None => scan_quoted_string(s, i),
    }
}

/// *word
pub open spec fn words(t: Seq<u8>) -> nat
    decreases t.len(),
{
    match word(t) {
        Some(w) => if 0 < w <= t.len() {
            w + words(t.skip(w as int))
        } else {
            0
        },
        None => 0,
    }
}

/// phrase = 1*word
#[verifier::opaque]
pub open spec fn phrase(t: Seq<u8>) -> Option<nat> {
    let n = words(t);
    if n > 0 {
        Some(n)
    } else {
        None
    }
}

pub fn scan_phrase(s: &[u8], i: usize) -> (r: Option<usize>)
    requires
        i <= s.len(),
    ensures
        agrees(r, phrase(s@.skip(i as int))),
        r matches Some(n) ==> i + n <= s.len(),
{
    reveal(phrase);
    let mut j = i;
    loop
        invariant
            i <= j <= s.len(),
            words(s@.skip(i as int)) == (j - i) + words(s@.skip(j as int)),
        ensures
            i <= j <= s.len(),
            words(s@.skip(i as int)) == (j - i),
        decreases s@.len() - j,
    {
        match scan_word(s, j) {
            Some(w) => {
                if w == 0 {
                    break ;
                }
                assert(s@.skip(j as int).skip(w as int) == s@.skip(j + w));
                j = j + w;
            },
            None => {
                break ;
            },
        }
    }
    if j > i {
        Some(j - i)
    } else {
        None
    }
}

/// *([FWS] VCHAR), the text of an unstructured value.
pub open spec fn unstructured_body(t: Seq<u8>) -> nat
    decreases t.len(),
{
    let f = opt_fws(t);
    if f < t.len() && in_class(Class::Vchar, t[f as int]) {
        f + 1 + unstructured_body(t.skip((f + 1) as int))
    } else {
        0
    }
}

/// unstructured = *([FWS] VCHAR) *WSP; it always matches, possibly nothing.
#[verifier::opaque]
pub open spec fn unstructured(t: Seq<u8>) -> Option<nat> {
    let n = unstructured_body(t);
    Some(n + class_run(Class::Wsp, t.skip(n as int)))
}

/// Text made only of visible characters and blanks, with no line break.
pub open spec fn is_text(t: Seq<u8>) -> bool {
    forall|i: int| 0 <= i < t.len() ==> in_class(Class::Vchar, #[trigger] t[i]) || in_class(
        Class::Wsp,
        t[i],
    )
}

proof fn lemma_unstructured_before(text: Seq<u8>, s: Seq<u8>)
    requires
        is_text(text),
        s.len() == 0 || s == crlf(),
    ensures
        unstructured(text + s) == Some(text.len()),
    decreases text.len(),
{
    reveal(unstructured);
    reveal(fws);
    let t = text + s;
    let r = class_run(Class::Wsp, text);
    lemma_class_run(Class::Wsp, text);
    assert(!(s.len() > 0 && in_class(Class::Wsp, s[0])));
    lemma_class_run_append(Class::Wsp, text, s);
    assert(class_run(Class::Wsp, t) == r);
    if r == text.len() {
        assert(t.skip(r as int) =~= s);
        assert(opt_fws(t) == r);
        if r < t.len() {
            assert(t[r as int] == s[0]);
        }
        assert(unstructured_body(t) == 0);
        assert(t.skip(0) =~= t);
    } else {
        assert(t[r as int] == text[r as int]);
        assert(in_class(Class::Vchar, text[r as int]));
        assert(t.skip(r as int)[0] == text[r as int]);
        assert(opt_fws(t) == r);
        let rest = text.skip((r + 1) as int);
        assert(t.skip((r + 1) as int) =~= rest + s);
        assert(is_text(rest)) by {
            assert forall|i: int| 0 <= i < rest.len() implies in_class(Class::Vchar, #[trigger] rest[i])
                || in_class(Class::Wsp, rest[i]) by {
                assert(rest[i] == text[i + r + 1]);
            }
        }
        lemma_unstructured_before(rest, s);
        let b = unstructured_body(rest + s);
        assert(unstructured_body(t) == r + 1 + b);
        assert(t.skip((r + 1 + b) as int) =~= (rest + s).skip(b as int));
    }
}

/// Unstructured text takes all of a run of visible characters and blanks,
/// whether it ends the input or a line break follows it.
pub proof fn lemma_unstructured_takes_text(text: Seq<u8>)
    requires
        is_text(text),
    ensures
        unstructured(text) == Some(text.len()),
        unstructured(text + crlf()) == Some(text.len()),
{
    lemma_unstructured_before(text, seq![]);
    assert(text + seq![] =~= text);
    lemma_unstructured_before(text, crlf());
}

pub fn scan_unstructured(s: &[u8], i: usize) -> (r: Option<usize>)
    requires
        i <= s.len(),
    ensures
        agrees(r, unstructured(s@.skip(i as int))),
        r matches Some(n) ==> i + n <= s.len(),
{
    reveal(unstructured);
    let mut j = i;
    loop
        invariant
            i <= j <= s.len(),
            unstructured_body(s@.skip(i as int)) == (j - i) + unstructured_body(
                s@.skip(j as int),
            ),
        ensures
            i <= j <= s.len(),
            unstructured_body(s@.skip(i as int)) == (j - i),
        decreases s@.len() - j,
    {
        let f = scan_opt_fws(s, j);
        if j + f < s.len() && class_has(Class::Vchar, s[j + f]) {
            assert(s@.skip(j as int).skip(f + 1) == s@.skip(j + f + 1));
            j = j + f + 1;
        } else {
            break ;
        }
    }
    let w = scan_class(Class::Wsp, s, j);
    assert(s@.skip(i as int).skip(j - i) == s@.skip(j as int));
    Some(j - i + w)
}

} // verus!
