//! The RESP grammar as spec functions over bytes.
//!
//! `parse(s, pos)` reads one frame of `s` starting at `pos` and says whether a
//! whole frame is there (and where it ends), whether more bytes are needed, or
//! whether the bytes can never start a frame.
use vstd::prelude::*;

verus! {

pub const CR: u8 = 0x0d;
pub const LF: u8 = 0x0a;
pub const PLUS: u8 = 0x2b;
pub const MINUS: u8 = 0x2d;
pub const COLON: u8 = 0x3a;
pub const COMMA: u8 = 0x2c;
pub const HASH: u8 = 0x23;
pub const UNDERSCORE: u8 = 0x5f;
pub const DOLLAR: u8 = 0x24;
pub const STAR: u8 = 0x2a;
pub const PERCENT: u8 = 0x25;
pub const TILDE: u8 = 0x7e;
pub const GREATER: u8 = 0x3e;
pub const DOT: u8 = 0x2e;
pub const DIGIT_ZERO: u8 = 0x30;
pub const DIGIT_NINE: u8 = 0x39;
pub const LOWER_E: u8 = 0x65;
pub const UPPER_E: u8 = 0x45;
pub const LOWER_T: u8 = 0x74;
pub const LOWER_F: u8 = 0x66;

/// A frame as the grammar reads it off the wire.
pub enum Frame {
    Simple(Seq<u8>),
    Error(Seq<u8>),
    Integer(int),
    Double(Seq<u8>),
    Boolean(bool),
    Null,
    Bulk(Option<Seq<u8>>),
    Array(Option<Seq<Frame>>),
    Dictionary(Seq<Frame>),
    Unordered(Seq<Frame>),
    Push(Seq<Frame>),
}

/// The outcome of reading one frame: the frame and the position just past
/// it, a need for more bytes, or a fault at a position.
pub enum Parsed {
    Done(Frame, int),
    Incomplete,
    Invalid(int),
}

/// The outcome of reading several frames back to back.
pub enum ParsedItems {
    Done(Seq<Frame>, int),
    Incomplete,
    Invalid(int),
}

/// The outcome of reading a line.  A complete line gives the position of its CR.
pub enum Line {
    Complete(int),
    Incomplete,
    Invalid(int),
}

/// Position of the first CR at or after `i`, or `s.len()` if there is none.
pub open spec fn cr_from(s: Seq<u8>, i: int) -> int
    decreases s.len() - i,
{
    if i >= s.len() {
        s.len() as int
    } else if s[i] == CR {
        i
    } else {
        cr_from(s, i + 1)
    }
}

/// The line that starts at `start` ends at the first CR, which must be
/// followed by LF.
pub open spec fn line_at(s: Seq<u8>, start: int) -> Line {
    let cr = cr_from(s, start);
    if cr + 1 >= s.len() {
        Line::Incomplete
    } else if s[cr + 1] == LF {
        Line::Complete(cr)
    } else {
        Line::Invalid(cr + 1)
    }
}

pub open spec fn is_digit(b: u8) -> bool {
    DIGIT_ZERO <= b <= DIGIT_NINE
}

pub open spec fn all_digits(t: Seq<u8>) -> bool {
    forall|i: int| 0 <= i < t.len() ==> is_digit(#[trigger] t[i])
}

/// The number that a string of decimal digits spells.
pub open spec fn digits_value(t: Seq<u8>) -> int
    decreases t.len(),
{
    if t.len() == 0 {
        0
    } else {
        digits_value(t.drop_last()) * 10 + (t.last() - DIGIT_ZERO)
    }
}

/// The integer that a line spells: an optional `-`, then one or more digits,
/// with a value that fits in 64 signed bits.
pub open spec fn integer_text(t: Seq<u8>) -> Option<int> {
    let v = if t.len() > 0 && t[0] == MINUS {
        let d = t.subrange(1, t.len() as int);
        if d.len() > 0 && all_digits(d) {
            Some(-digits_value(d))
        } else {
            None
        }
    } else if t.len() > 0 && all_digits(t) {
        Some(digits_value(t))
    } else {
        None
    };
    match v {
        Some(n) => if i64::MIN <= n <= i64::MAX {
            Some(n)
        } else {
            None
        },
        None => None,
    }
}

pub open spec fn lower(b: u8) -> u8 {
    if 0x41 <= b <= 0x5a {
        (b + 0x20) as u8
    } else {
        b
    }
}

/// `t` is the word `w` (given in lower case), in any case.
pub open spec fn spells(t: Seq<u8>, w: Seq<u8>) -> bool {
    t.len() == w.len() && forall|i: int| 0 <= i < t.len() ==> lower(#[trigger] t[i]) == w[i]
}

/// Position of the first `a` or `b` at or after `i`, or `t.len()`.
pub open spec fn first_of(t: Seq<u8>, a: u8, b: u8, i: int) -> int
    decreases t.len() - i,
{
    if i >= t.len() {
        t.len() as int
    } else if t[i] == a || t[i] == b {
        i
    } else {
        first_of(t, a, b, i + 1)
    }
}

/// Digits, with at most one `.` among them, and at least one digit.
pub open spec fn is_mantissa(m: Seq<u8>) -> bool {
    let dot = first_of(m, DOT, DOT, 0);
    if dot == m.len() {
        m.len() > 0 && all_digits(m)
    } else {
        m.len() >= 2 && all_digits(m.subrange(0, dot)) && all_digits(
            m.subrange(dot + 1, m.len() as int),
        )
    }
}

/// An optional sign, then one or more digits.
pub open spec fn is_signed_digits(t: Seq<u8>) -> bool {
    let d = if t.len() > 0 && (t[0] == PLUS || t[0] == MINUS) {
        t.subrange(1, t.len() as int)
    } else {
        t
    };
    d.len() > 0 && all_digits(d)
}

/// A mantissa, then optionally `e` or `E` and an exponent.
pub open spec fn is_decimal_number(u: Seq<u8>) -> bool {
    let k = first_of(u, LOWER_E, UPPER_E, 0);
    is_mantissa(u.subrange(0, k)) && (k == u.len() || is_signed_digits(
        u.subrange(k + 1, u.len() as int),
    ))
}

pub open spec fn word_inf() -> Seq<u8> {
    seq![0x69u8, 0x6e, 0x66]
}

pub open spec fn word_infinity() -> Seq<u8> {
    seq![0x69u8, 0x6e, 0x66, 0x69, 0x6e, 0x69, 0x74, 0x79]
}

pub open spec fn word_nan() -> Seq<u8> {
    seq![0x6eu8, 0x61, 0x6e]
}

/// A decimal floating-point number: an optional sign, then `inf`,
/// `infinity`, `nan` (in any case) or a decimal number.
pub open spec fn is_float_text(t: Seq<u8>) -> bool {
    let u = if t.len() > 0 && (t[0] == PLUS || t[0] == MINUS) {
        t.subrange(1, t.len() as int)
    } else {
        t
    };
    spells(u, word_inf()) || spells(u, word_infinity()) || spells(u, word_nan())
        || is_decimal_number(u)
}

/// The bytes that start a frame.
pub open spec fn is_type_byte(t: u8) -> bool {
    t == PLUS || t == MINUS || t == COLON || t == COMMA || t == HASH || t == UNDERSCORE || t
        == DOLLAR || t == STAR || t == PERCENT || t == TILDE || t == GREATER
}

/// Types whose whole frame is one line.
pub open spec fn is_line_type(t: u8) -> bool {
    t == PLUS || t == MINUS || t == COLON || t == COMMA || t == HASH || t == UNDERSCORE
}

/// The frame that a one-line type makes of the line's content, if the
/// content is well formed for it.
pub open spec fn line_frame(t: u8, c: Seq<u8>) -> Option<Frame> {
    if t == PLUS {
        Some(Frame::Simple(c))
    } else if t == MINUS {
        Some(Frame::Error(c))
    } else if t == COLON {
        match integer_text(c) {
            Some(n) => Some(Frame::Integer(n)),
            None => None,
        }
    } else if t == COMMA {
        if is_float_text(c) {
            Some(Frame::Double(c))
        } else {
            None
        }
    } else if t == HASH {
        if c == seq![LOWER_T] {
            Some(Frame::Boolean(true))
        } else if c == seq![LOWER_F] {
            Some(Frame::Boolean(false))
        } else {
            None
        }
    } else {
        if c.len() == 0 {
            Some(Frame::Null)
        } else {
            None
        }
    }
}

/// A bulk string of length `n` whose payload starts at `next`.  The byte
/// after the payload must be CR, and is checked as soon as it is there.
pub open spec fn bulk(s: Seq<u8>, next: int, n: int, start: int) -> Parsed {
    if n == -1 {
        Parsed::Done(Frame::Bulk(None), next)
    } else if n < -1 {
        Parsed::Invalid(start)
    } else if s.len() - next >= n + 1 && s[next + n] != CR {
        Parsed::Invalid(next + n)
    } else if s.len() - next < n + 2 {
        Parsed::Incomplete
    } else if s[next + n + 1] != LF {
        Parsed::Invalid(next + n + 1)
    } else {
        Parsed::Done(Frame::Bulk(Some(s.subrange(next, next + n))), next + n + 2)
    }
}

/// How many frames follow the header of an aggregate of count `n`.
pub open spec fn item_count(t: u8, n: int) -> int {
    if t == PERCENT {
        2 * n
    } else {
        n
    }
}

pub open spec fn aggregate(t: u8, fs: Seq<Frame>) -> Frame {
    if t == STAR {
        Frame::Array(Some(fs))
    } else if t == PERCENT {
        Frame::Dictionary(fs)
    } else if t == TILDE {
        Frame::Unordered(fs)
    } else {
        Frame::Push(fs)
    }
}

/// One frame of `s`, starting at `pos`.
pub open spec fn parse(s: Seq<u8>, pos: int) -> Parsed
    decreases s.len() - pos, 0int, 0int,
{
    if pos < 0 || pos >= s.len() {
        Parsed::Incomplete
    } else if !is_type_byte(s[pos]) {
        Parsed::Invalid(pos)
    } else {
        let t = s[pos];
        let start = pos + 1;
        match line_at(s, start) {
            Line::Incomplete => Parsed::Incomplete,
            Line::Invalid(p) => Parsed::Invalid(p),
            Line::Complete(cr) => {
                let c = s.subrange(start, cr);
                let next = cr + 2;
                if is_line_type(t) {
                    match line_frame(t, c) {
                        Some(f) => Parsed::Done(f, next),
                        None => Parsed::Invalid(start),
                    }
                } else {
                    match integer_text(c) {
                        None => Parsed::Invalid(start),
                        Some(n) => if t == DOLLAR {
                            bulk(s, next, n, start)
                        } else if t == STAR && n == -1 {
                            Parsed::Done(Frame::Array(None), next)
                        } else if n < 0 {
                            Parsed::Invalid(start)
                        } else {
                            proof {
                                lemma_cr_from_bounds(s, start);
                            }
                            match items(s, next, item_count(t, n) as nat) {
                                ParsedItems::Done(fs, e) => Parsed::Done(aggregate(t, fs), e),
                                ParsedItems::Incomplete => Parsed::Incomplete,
                                ParsedItems::Invalid(p) => Parsed::Invalid(p),
                            }
                        },
                    }
                }
            },
        }
    }
}

/// `n` frames of `s` back to back, starting at `pos`.
pub open spec fn items(s: Seq<u8>, pos: int, n: nat) -> ParsedItems
    decreases s.len() - pos, 1int, n,
{
    if n == 0 {
        ParsedItems::Done(seq![], pos)
    } else {
        match parse(s, pos) {
            Parsed::Done(f, e) => {
                // every frame takes at least one byte and lies within `s`
                // (lemma_parse_bounds)
                if pos < e <= s.len() {
                    match items(s, e, (n - 1) as nat) {
                        ParsedItems::Done(fs, e2) => ParsedItems::Done(seq![f] + fs, e2),
                        ParsedItems::Incomplete => ParsedItems::Incomplete,
                        ParsedItems::Invalid(p) => ParsedItems::Invalid(p),
                    }
                } else {
                    ParsedItems::Invalid(pos)
                }
            },
            Parsed::Incomplete => ParsedItems::Incomplete,
            Parsed::Invalid(p) => ParsedItems::Invalid(p),
        }
    }
}

/// `s1` and `s2` hold the same first `m` bytes.
pub open spec fn agree(s1: Seq<u8>, s2: Seq<u8>, m: int) -> bool {
    0 <= m <= s1.len() && m <= s2.len() && forall|j: int| 0 <= j < m ==> #[trigger] s1[j] == s2[j]
}

pub proof fn lemma_cr_from_bounds(s: Seq<u8>, i: int)
    requires
        0 <= i,
    ensures
        i <= s.len() ==> i <= cr_from(s, i) <= s.len(),
        i > s.len() ==> cr_from(s, i) == s.len(),
        cr_from(s, i) < s.len() ==> s[cr_from(s, i)] == CR,
        forall|j: int| i <= j < cr_from(s, i) ==> s[j] != CR,
    decreases s.len() - i,
{
    if i < s.len() && s[i] != CR {
        lemma_cr_from_bounds(s, i + 1);
    }
}

/// Where the first CR lies depends only on the bytes up to it.
pub proof fn lemma_cr_from_agree(s1: Seq<u8>, s2: Seq<u8>, i: int, m: int)
    requires
        0 <= i,
        agree(s1, s2, m),
        cr_from(s1, i) < m,
    ensures
        cr_from(s2, i) == cr_from(s1, i),
    decreases s1.len() - i,
{
    if i < s1.len() && s1[i] != CR {
        assert(i < m) by {
            lemma_cr_from_bounds(s1, i);
        }
        lemma_cr_from_agree(s1, s2, i + 1, m);
    }
}

/// In the first `k` bytes of `s`, the first CR is the one of `s` if it lies
/// before `k`; else there is none.
pub proof fn lemma_cr_from_cut(s: Seq<u8>, k: int, i: int)
    requires
        0 <= i <= k <= s.len(),
    ensures
        cr_from(s.subrange(0, k), i) == if cr_from(s, i) < k {
            cr_from(s, i)
        } else {
            k
        },
    decreases k - i,
{
    let p = s.subrange(0, k);
    lemma_cr_from_bounds(s, i);
    if i < k && s[i] != CR {
        lemma_cr_from_cut(s, k, i + 1);
    }
}

pub proof fn lemma_parse_bounds(s: Seq<u8>, pos: int)
    ensures
        parse(s, pos) is Done ==> pos < parse(s, pos)->Done_1 <= s.len(),
        parse(s, pos) is Invalid ==> 0 <= parse(s, pos)->Invalid_0 < s.len(),
    decreases s.len() - pos, 0int, 0int,
{
    if 0 <= pos < s.len() && is_type_byte(s[pos]) {
        let start = pos + 1;
        lemma_cr_from_bounds(s, start);
        if let Line::Complete(cr) = line_at(s, start) {
            let c = s.subrange(start, cr);
            if !is_line_type(s[pos]) {
                if let Some(n) = integer_text(c) {
                    if s[pos] != DOLLAR && !(s[pos] == STAR && n == -1) && n >= 0 {
                        lemma_items_bounds(s, cr + 2, item_count(s[pos], n) as nat);
                    }
                }
            }
        }
    }
}

pub proof fn lemma_items_bounds(s: Seq<u8>, pos: int, n: nat)
    requires
        0 <= pos <= s.len(),
    ensures
        items(s, pos, n) is Done ==> pos <= items(s, pos, n)->Done_1 <= s.len(),
        items(s, pos, n) is Done ==> items(s, pos, n)->Done_0.len() == n,
        items(s, pos, n) is Invalid ==> 0 <= items(s, pos, n)->Invalid_0 < s.len(),
    decreases s.len() - pos, 1int, n,
{
    if n > 0 {
        lemma_parse_bounds(s, pos);
        if let Parsed::Done(f, e) = parse(s, pos) {
            if pos < e <= s.len() {
                lemma_items_bounds(s, e, (n - 1) as nat);
            }
        }
    }
}

/// A frame depends only on its own bytes: whatever follows it, or whatever
/// else differs after it, it reads the same.
pub proof fn lemma_parse_agree(s1: Seq<u8>, s2: Seq<u8>, pos: int)
    requires
        parse(s1, pos) is Done,
        agree(s1, s2, parse(s1, pos)->Done_1),
    ensures
        parse(s2, pos) == parse(s1, pos),
    decreases s1.len() - pos, 0int, 0int,
{
    let e = parse(s1, pos)->Done_1;
    lemma_parse_bounds(s1, pos);
    let start = pos + 1;
    lemma_cr_from_bounds(s1, start);
    let cr = cr_from(s1, start);
    assert(s1[pos] == s2[pos]);
    assert(line_at(s1, start) is Complete);
    assert(cr + 2 <= e) by {
        if !is_line_type(s1[pos]) {
            let n = integer_text(s1.subrange(start, cr))->Some_0;
            if !(s1[pos] == DOLLAR) && !(s1[pos] == STAR && n == -1) {
                lemma_items_bounds(s1, cr + 2, item_count(s1[pos], n) as nat);
            }
        }
    }
    lemma_cr_from_agree(s1, s2, start, e);
    assert(s1[cr + 1] == s2[cr + 1]);
    assert(s1.subrange(start, cr) =~= s2.subrange(start, cr));
    let c = s1.subrange(start, cr);
    if !is_line_type(s1[pos]) {
        let n = integer_text(c)->Some_0;
        if s1[pos] == DOLLAR {
            if n >= 0 {
                assert(s1[cr + 2 + n] == s2[cr + 2 + n]);
                assert(s1[cr + 2 + n + 1] == s2[cr + 2 + n + 1]);
                assert(s1.subrange(cr + 2, cr + 2 + n) =~= s2.subrange(cr + 2, cr + 2 + n));
            }
        } else if !(s1[pos] == STAR && n == -1) {
            lemma_items_agree(s1, s2, cr + 2, item_count(s1[pos], n) as nat);
        }
    }
}

pub proof fn lemma_items_agree(s1: Seq<u8>, s2: Seq<u8>, pos: int, n: nat)
    requires
        0 <= pos,
        items(s1, pos, n) is Done,
        agree(s1, s2, items(s1, pos, n)->Done_1),
    ensures
        items(s2, pos, n) == items(s1, pos, n),
    decreases s1.len() - pos, 1int, n,
{
    if n > 0 {
        let e = parse(s1, pos)->Done_1;
        lemma_items_bounds(s1, e, (n - 1) as nat);
        lemma_parse_agree(s1, s2, pos);
        lemma_items_agree(s1, s2, e, (n - 1) as nat);
    }
}

/// Cut short anywhere before its end, a frame reads as incomplete.
pub proof fn lemma_parse_cut(s: Seq<u8>, pos: int, k: int)
    requires
        parse(s, pos) is Done,
        0 <= k < parse(s, pos)->Done_1,
    ensures
        parse(s.subrange(0, k), pos) is Incomplete,
    decreases s.len() - pos, 0int, 0int,
{
    let p = s.subrange(0, k);
    let e = parse(s, pos)->Done_1;
    lemma_parse_bounds(s, pos);
    if pos < k {
        let start = pos + 1;
        lemma_cr_from_bounds(s, start);
        let cr = cr_from(s, start);
        lemma_cr_from_cut(s, k, start);
        assert(p[pos] == s[pos]);
        if k >= cr + 2 {
            assert(p[cr + 1] == s[cr + 1]);
            assert(p.subrange(start, cr) =~= s.subrange(start, cr));
            let c = s.subrange(start, cr);
            let n = integer_text(c)->Some_0;
            if s[pos] != DOLLAR {
                lemma_items_bounds(s, cr + 2, item_count(s[pos], n) as nat);
                lemma_items_cut(s, cr + 2, item_count(s[pos], n) as nat, k);
            }
        }
    }
}

pub proof fn lemma_items_cut(s: Seq<u8>, pos: int, n: nat, k: int)
    requires
        0 <= pos <= k <= s.len(),
        items(s, pos, n) is Done,
        k < items(s, pos, n)->Done_1,
    ensures
        items(s.subrange(0, k), pos, n) is Incomplete,
    decreases s.len() - pos, 1int, n,
{
    let p = s.subrange(0, k);
    let e = parse(s, pos)->Done_1;
    lemma_parse_bounds(s, pos);
    if k < e {
        lemma_parse_cut(s, pos, k);
    } else {
        assert(agree(s, p, e));
        lemma_parse_agree(s, p, pos);
        lemma_items_cut(s, e, (n - 1) as nat, k);
    }
}

} // verus!
