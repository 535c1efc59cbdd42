//! The incremental RESP decoder: reads one frame from the front of a buffer,
//! as `frame::parse` says.
use vstd::prelude::*;
use vstd::slice::{slice_subrange, slice_to_vec};
use vstd::string::StringSliceAdditionalSpecFns;
use bytes::BytesMut;
use crate::buffer::{buffered, buffer_bytes, buffer_advance};
use crate::frame::{
    parse, items, line_at, cr_from, first_of, integer_text, digits_value, all_digits, is_digit,
    is_float_text, is_mantissa, is_signed_digits, is_decimal_number, spells, lower, word_inf,
    word_infinity, word_nan, line_frame, is_line_type, lemma_parse_bounds, Frame, Parsed, ParsedItems, Line, CR, LF, PLUS,
    MINUS, COLON, COMMA, HASH, UNDERSCORE, DOLLAR, STAR, PERCENT, TILDE, GREATER, DOT,
    DIGIT_ZERO, DIGIT_NINE, LOWER_E, UPPER_E, LOWER_T, LOWER_F,
};
use crate::value::{Value, RedisError, RedisErrorKind, Error};
use crate::stream::{drain, drain_fails};

verus! {

pub const SPACE: u8 = 0x20;

/// The text of some bytes, read as UTF-8 with invalid sequences replaced.
pub uninterp spec fn lossy_text(b: Seq<u8>) -> Seq<char>;

/// Relies on `String::from_utf8_lossy`: the text of the bytes, each invalid
/// UTF-8 sequence replaced by U+FFFD; it depends on the bytes alone.
#[verifier::external_body]
fn text_lossy(b: &[u8]) -> (r: String)
    ensures
        r@ == lossy_text(b@),
{
    String::from_utf8_lossy(b).into_owned()
}

/// The word that names an error's kind: up to the first space.
pub open spec fn error_word(c: Seq<u8>) -> Seq<u8> {
    c.subrange(0, first_of(c, SPACE, SPACE, 0))
}

/// What follows the first space of an error line.
pub open spec fn error_description(c: Seq<u8>) -> Seq<u8> {
    let sp = first_of(c, SPACE, SPACE, 0);
    if sp < c.len() {
        c.subrange(sp + 1, c.len() as int)
    } else {
        Seq::empty()
    }
}

/// The known kind that a word names, if it names one.
pub open spec fn known_kind(w: Seq<u8>) -> Option<RedisErrorKind> {
    if w == "ERR".spec_bytes() {
        Some(RedisErrorKind::GenericErr)
    } else if w == "WRONGTYPE".spec_bytes() {
        Some(RedisErrorKind::WrongType)
    } else if w == "MOVED".spec_bytes() {
        Some(RedisErrorKind::Moved)
    } else if w == "ASK".spec_bytes() {
        Some(RedisErrorKind::Ask)
    } else if w == "CLUSTERDOWN".spec_bytes() {
        Some(RedisErrorKind::ClusterDown)
    } else if w == "NOAUTH".spec_bytes() {
        Some(RedisErrorKind::NoAuth)
    } else if w == "LOADING".spec_bytes() {
        Some(RedisErrorKind::Loading)
    } else if w == "BUSY".spec_bytes() {
        Some(RedisErrorKind::Busy)
    } else if w == "READONLY".spec_bytes() {
        Some(RedisErrorKind::ReadOnly)
    } else if w == "NOSCRIPT".spec_bytes() {
        Some(RedisErrorKind::NoScript)
    } else if w == "MASTERDOWN".spec_bytes() {
        Some(RedisErrorKind::MasterDown)
    } else if w == "MISCONF".spec_bytes() {
        Some(RedisErrorKind::MisConf)
    } else if w == "TRYAGAIN".spec_bytes() {
        Some(RedisErrorKind::TryAgain)
    } else if w == "EXECABORT".spec_bytes() {
        Some(RedisErrorKind::ExecAbort)
    } else if w == "UNKILLABLE".spec_bytes() {
        Some(RedisErrorKind::Unkillable)
    } else if w == "NOPROTO".spec_bytes() {
        Some(RedisErrorKind::NoProto)
    } else if w == "NOPERM".spec_bytes() {
        Some(RedisErrorKind::NoPerm)
    } else if w == "BUSYKEY".spec_bytes() {
        Some(RedisErrorKind::BusyKey)
    } else if w == "XX".spec_bytes() {
        Some(RedisErrorKind::Xx)
    } else if w == "OOM".spec_bytes() {
        Some(RedisErrorKind::Oom)
    } else {
        None
    }
}

/// `k` is the kind that the word `w` names; an unknown word is kept as text.
pub open spec fn kind_represents(k: RedisErrorKind, w: Seq<u8>) -> bool {
    match known_kind(w) {
        Some(known) => k == known,
        None => k is Other && k->Other_0@ == lossy_text(w),
    }
}

/// `e` is the error that the line `c` of an error frame spells.
pub open spec fn error_represents(e: RedisError, c: Seq<u8>) -> bool {
    kind_represents(e.kind, error_word(c)) && e.description@ == lossy_text(error_description(c))
}

/// `v` is the value that the frame `f` decodes to.
pub open spec fn represents(v: Value, f: Frame) -> bool
    decreases f,
{
    match f {
        Frame::Simple(c) => v is SimpleString && v->SimpleString_0@ == lossy_text(c),
        Frame::Error(c) => v is Error && error_represents(v->Error_0, c),
        Frame::Integer(n) => v == Value::Integer(n as i64),
        Frame::Double(c) => v is Double && v->Double_0@ == lossy_text(c),
        Frame::Boolean(b) => v == Value::Integer(
            if b {
                1
            } else {
                0
            },
        ),
        Frame::Null => v == Value::BulkString(None),
        Frame::Bulk(None) => v == Value::BulkString(None),
        Frame::Bulk(Some(b)) => v is BulkString && v->BulkString_0 is Some
            && v->BulkString_0->Some_0@ == b,
        Frame::Array(None) => v == Value::Array(None),
        Frame::Array(Some(fs)) => v is Array && v->Array_0 is Some && v->Array_0->Some_0@.len()
            == fs.len() && forall|i: int|
            0 <= i < fs.len() ==> represents(#[trigger] v->Array_0->Some_0@[i], fs[i]),
        Frame::Dictionary(fs) => v is Array && v->Array_0 is Some && v->Array_0->Some_0@.len()
            == fs.len() && forall|i: int|
            0 <= i < fs.len() ==> represents(#[trigger] v->Array_0->Some_0@[i], fs[i]),
        Frame::Unordered(fs) => v is Array && v->Array_0 is Some && v->Array_0->Some_0@.len()
            == fs.len() && forall|i: int|
            0 <= i < fs.len() ==> represents(#[trigger] v->Array_0->Some_0@[i], fs[i]),
        Frame::Push(fs) => v is Push && v->Push_0@.len() == fs.len() && forall|i: int|
            0 <= i < fs.len() ==> represents(#[trigger] v->Push_0@[i], fs[i]),
    }
}

/// The values `vs` are the frames `fs` decoded, one for one.
pub open spec fn all_represent(vs: Seq<Value>, fs: Seq<Frame>) -> bool {
    vs.len() == fs.len() && forall|i: int| 0 <= i < fs.len() ==> represents(#[trigger] vs[i], fs[i])
}

/// The outcome of decoding from the front of a buffer, as `parse` gives it:
/// the value and the bytes it took, nothing yet, or a fault.
pub open spec fn decoded_as(r: Result<Option<(Value, usize)>, Error>, p: Parsed) -> bool {
    match p {
        Parsed::Done(f, e) => r is Ok && r->Ok_0 is Some && represents(r->Ok_0->Some_0.0, f)
            && r->Ok_0->Some_0.1 == e,
        Parsed::Incomplete => r == Ok::<Option<(Value, usize)>, Error>(None),
        Parsed::Invalid(q) => r == Err::<Option<(Value, usize)>, Error>(Error::Parse(q as usize)),
    }
}

enum Step {
    Done(Value, usize),
    Incomplete,
    Invalid(usize),
}

enum ItemsStep {
    Done(Vec<Value>, usize),
    Incomplete,
    Invalid(usize),
}

spec fn step_matches(r: Step, p: Parsed) -> bool {
    match p {
        Parsed::Done(f, e) => r is Done && represents(r->Done_0, f) && r->Done_1 == e,
        Parsed::Incomplete => r is Incomplete,
        Parsed::Invalid(q) => r is Invalid && r->Invalid_0 == q,
    }
}

spec fn items_step_matches(r: ItemsStep, p: ParsedItems) -> bool {
    match p {
        ParsedItems::Done(fs, e) => r is Done && all_represent(r->Done_0@, fs) && r->Done_1 == e,
        ParsedItems::Incomplete => r is Incomplete,
        ParsedItems::Invalid(q) => r is Invalid && r->Invalid_0 == q,
    }
}

spec fn prepend(fs: Seq<Frame>, r: ParsedItems) -> ParsedItems {
    match r {
        ParsedItems::Done(gs, e) => ParsedItems::Done(fs + gs, e),
        other => other,
    }
}

fn find_cr(buf: &[u8], i: usize) -> (r: usize)
    requires
        i <= buf@.len(),
    ensures
        r == cr_from(buf@, i as int),
        i <= r <= buf@.len(),
{
    let mut j = i;
    while j < buf.len() && buf[j] != CR
        invariant
            i <= j <= buf@.len(),
            cr_from(buf@, i as int) == cr_from(buf@, j as int),
        decreases buf@.len() - j,
    {
        j = j + 1;
    }
    j
}

fn find_either(t: &[u8], a: u8, b: u8) -> (r: usize)
    ensures
        r == first_of(t@, a, b, 0),
        r <= t@.len(),
{
    let mut j: usize = 0;
    while j < t.len() && t[j] != a && t[j] != b
        invariant
            j <= t@.len(),
            first_of(t@, a, b, 0) == first_of(t@, a, b, j as int),
        decreases t@.len() - j,
    {
        j = j + 1;
    }
    j
}

fn digits_only(t: &[u8]) -> (r: bool)
    ensures
        r == all_digits(t@),
{
    let mut j: usize = 0;
    while j < t.len()
        invariant
            j <= t@.len(),
            forall|i: int| 0 <= i < j ==> is_digit(#[trigger] t@[i]),
        decreases t@.len() - j,
    {
        if t[j] < DIGIT_ZERO || t[j] > DIGIT_NINE {
            return false;
        }
        j = j + 1;
    }
    true
}

pub(crate) fn bytes_equal(a: &[u8], b: &[u8]) -> (r: bool)
    ensures
        r == (a@ == b@),
{
    if a.len() != b.len() {
        return false;
    }
    let mut j: usize = 0;
    while j < a.len()
        invariant
            a@.len() == b@.len(),
            j <= a@.len(),
            forall|i: int| 0 <= i < j ==> #[trigger] a@[i] == b@[i],
        decreases a@.len() - j,
    {
        if a[j] != b[j] {
            return false;
        }
        j = j + 1;
    }
    assert(a@ =~= b@);
    true
}

fn lower_byte(b: u8) -> (r: u8)
    ensures
        r == lower(b),
{
    if 0x41 <= b && b <= 0x5a {
        b + 0x20
    } else {
        b
    }
}

fn spells_word(u: &[u8], w: &[u8]) -> (r: bool)
    ensures
        r == spells(u@, w@),
{
    if u.len() != w.len() {
        return false;
    }
    let mut j: usize = 0;
    while j < u.len()
        invariant
            u@.len() == w@.len(),
            j <= u@.len(),
            forall|i: int| 0 <= i < j ==> lower(#[trigger] u@[i]) == w@[i],
        decreases u@.len() - j,
    {
        if lower_byte(u[j]) != w[j] {
            return false;
        }
        j = j + 1;
    }
    true
}

fn signed_digits(t: &[u8]) -> (r: bool)
    ensures
        r == is_signed_digits(t@),
{
    let d = if t.len() > 0 && (t[0] == PLUS || t[0] == MINUS) {
        slice_subrange(t, 1, t.len())
    } else {
        t
    };
    d.len() > 0 && digits_only(d)
}

fn mantissa(m: &[u8]) -> (r: bool)
    ensures
        r == is_mantissa(m@),
{
    let dot = find_either(m, DOT, DOT);
    if dot == m.len() {
        m.len() > 0 && digits_only(m)
    } else {
        m.len() >= 2 && digits_only(slice_subrange(m, 0, dot)) && digits_only(
            slice_subrange(m, dot + 1, m.len()),
        )
    }
}

fn decimal_number(u: &[u8]) -> (r: bool)
    ensures
        r == is_decimal_number(u@),
{
    let k = find_either(u, LOWER_E, UPPER_E);
    mantissa(slice_subrange(u, 0, k)) && (k == u.len() || signed_digits(
        slice_subrange(u, k + 1, u.len()),
    ))
}

fn float_text(t: &[u8]) -> (r: bool)
    ensures
        r == is_float_text(t@),
{
    let u = if t.len() > 0 && (t[0] == PLUS || t[0] == MINUS) {
        slice_subrange(t, 1, t.len())
    } else {
        t
    };
    let inf = vec![0x69u8, 0x6e, 0x66];
    let infinity = vec![0x69u8, 0x6e, 0x66, 0x69, 0x6e, 0x69, 0x74, 0x79];
    let nan = vec![0x6eu8, 0x61, 0x6e];
    assert(inf@ =~= word_inf());
    assert(infinity@ =~= word_infinity());
    assert(nan@ =~= word_nan());
    spells_word(u, inf.as_slice()) || spells_word(u, infinity.as_slice()) || spells_word(
        u,
        nan.as_slice(),
    ) || decimal_number(u)
}

/// 2^63 + 1: past every magnitude that a 64-bit signed integer can have.
const MAGNITUDE_CAP: u64 = 0x8000_0000_0000_0001;

fn integer(t: &[u8]) -> (r: Option<i64>)
    ensures
        r is Some <==> integer_text(t@) is Some,
        r is Some ==> r->Some_0 as int == integer_text(t@)->Some_0,
{
    if t.len() == 0 {
        return None;
    }
    let negative = t[0] == MINUS;
    let first: usize = if negative {
        1
    } else {
        0
    };
    if first >= t.len() {
        return None;
    }
    let ghost cap = MAGNITUDE_CAP as int;
    let mut mag: u64 = 0;
    let mut i = first;
    while i < t.len()
        invariant
            first <= i <= t@.len(),
            cap == MAGNITUDE_CAP,
            first == (if negative { 1int } else { 0int }),
            negative == (t@[0] == MINUS),
            t@.len() > first,
            mag as int == if digits_value(t@.subrange(first as int, i as int)) < cap {
                digits_value(t@.subrange(first as int, i as int))
            } else {
                cap
            },
            all_digits(t@.subrange(first as int, i as int)),
        decreases t@.len() - i,
    {
        let b = t[i];
        if b < DIGIT_ZERO || b > DIGIT_NINE {
            assert(t@.subrange(first as int, t@.len() as int)[i - first] == b);
            return None;
        }
        let ghost prev = t@.subrange(first as int, i as int);
        let ghost next = t@.subrange(first as int, i + 1);
        assert(next.drop_last() =~= prev);
        assert(all_digits(next)) by {
            assert forall|j: int| 0 <= j < next.len() implies is_digit(#[trigger] next[j]) by {
                if j < prev.len() {
                    assert(next[j] == prev[j]);
                }
            }
        }
        let d = (b - DIGIT_ZERO) as u64;
        assert(next.last() == b);
        assert(digits_value(next) == digits_value(prev) * 10 + d);
        if mag > (MAGNITUDE_CAP - d) / 10 {
            assert(mag * 10 + d > MAGNITUDE_CAP) by (nonlinear_arith)
                requires
                    mag > (MAGNITUDE_CAP - d) / 10,
                    d <= 9,
            ;
            mag = MAGNITUDE_CAP;
        } else {
            assert(mag * 10 + d <= MAGNITUDE_CAP) by (nonlinear_arith)
                requires
                    mag <= (MAGNITUDE_CAP - d) / 10,
                    d <= 9,
            ;
            mag = mag * 10 + d;
        }
        i = i + 1;
    }
    assert(t@.subrange(first as int, t@.len() as int) =~= t@.subrange(1, t@.len() as int)
        || !negative);
    assert(t@.subrange(0, t@.len() as int) =~= t@);
    if negative {
        if mag > 0x8000_0000_0000_0000 {
            None
        } else if mag == 0x8000_0000_0000_0000 {
            Some(i64::MIN)
        } else {
            Some(-(mag as i64))
        }
    } else {
        if mag > 0x7fff_ffff_ffff_ffff {
            None
        } else {
            Some(mag as i64)
        }
    }
}

fn error_kind(w: &[u8]) -> (r: RedisErrorKind)
    ensures
        kind_represents(r, w@),
{
    if bytes_equal(w, "ERR".as_bytes()) {
        RedisErrorKind::GenericErr
    } else if bytes_equal(w, "WRONGTYPE".as_bytes()) {
        RedisErrorKind::WrongType
    } else if bytes_equal(w, "MOVED".as_bytes()) {
        RedisErrorKind::Moved
    } else if bytes_equal(w, "ASK".as_bytes()) {
        RedisErrorKind::Ask
    } else if bytes_equal(w, "CLUSTERDOWN".as_bytes()) {
        RedisErrorKind::ClusterDown
    } else if bytes_equal(w, "NOAUTH".as_bytes()) {
        RedisErrorKind::NoAuth
    } else if bytes_equal(w, "LOADING".as_bytes()) {
        RedisErrorKind::Loading
    } else if bytes_equal(w, "BUSY".as_bytes()) {
        RedisErrorKind::Busy
    } else if bytes_equal(w, "READONLY".as_bytes()) {
        RedisErrorKind::ReadOnly
    } else if bytes_equal(w, "NOSCRIPT".as_bytes()) {
        RedisErrorKind::NoScript
    } else if bytes_equal(w, "MASTERDOWN".as_bytes()) {
        RedisErrorKind::MasterDown
    } else if bytes_equal(w, "MISCONF".as_bytes()) {
        RedisErrorKind::MisConf
    } else if bytes_equal(w, "TRYAGAIN".as_bytes()) {
        RedisErrorKind::TryAgain
    } else if bytes_equal(w, "EXECABORT".as_bytes()) {
        RedisErrorKind::ExecAbort
    } else if bytes_equal(w, "UNKILLABLE".as_bytes()) {
        RedisErrorKind::Unkillable
    } else if bytes_equal(w, "NOPROTO".as_bytes()) {
        RedisErrorKind::NoProto
    } else if bytes_equal(w, "NOPERM".as_bytes()) {
        RedisErrorKind::NoPerm
    } else if bytes_equal(w, "BUSYKEY".as_bytes()) {
        RedisErrorKind::BusyKey
    } else if bytes_equal(w, "XX".as_bytes()) {
        RedisErrorKind::Xx
    } else if bytes_equal(w, "OOM".as_bytes()) {
        RedisErrorKind::Oom
    } else {
        RedisErrorKind::Other(text_lossy(w))
    }
}

/// Splits an error line at its first space into the kind and the description.
pub fn decode_error(c: &[u8]) -> (r: RedisError)
    ensures
        error_represents(r, c@),
{
    let sp = find_either(c, SPACE, SPACE);
    let word = slice_subrange(c, 0, sp);
    let description = if sp < c.len() {
        slice_subrange(c, sp + 1, c.len())
    } else {
        slice_subrange(c, 0, 0)
    };
    assert(sp < c@.len() || description@ =~= Seq::<u8>::empty());
    RedisError { kind: error_kind(word), description: text_lossy(description) }
}

fn decode_line_frame(t: u8, c: &[u8]) -> (r: Option<Value>)
    requires
        is_line_type(t),
    ensures
        match line_frame(t, c@) {
            Some(f) => r is Some && represents(r->Some_0, f),
            None => r is None,
        },
{
    if t == PLUS {
        Some(Value::SimpleString(text_lossy(c)))
    } else if t == MINUS {
        Some(Value::Error(decode_error(c)))
    } else if t == COLON {
        match integer(c) {
            Some(n) => Some(Value::Integer(n)),
            None => None,
        }
    } else if t == COMMA {
        if float_text(c) {
            Some(Value::Double(text_lossy(c)))
        } else {
            None
        }
    } else if t == HASH {
        if c.len() == 1 && c[0] == LOWER_T {
            assert(c@ =~= seq![LOWER_T]);
            Some(Value::Integer(1))
        } else if c.len() == 1 && c[0] == LOWER_F {
            assert(c@ =~= seq![LOWER_F]);
            Some(Value::Integer(0))
        } else {
            assert(c@ != seq![LOWER_T] && c@ != seq![LOWER_F]) by {
                if c@.len() == 1 {
                    assert(c@[0] == seq![LOWER_T][0] || c@ != seq![LOWER_T]);
                    assert(c@[0] == seq![LOWER_F][0] || c@ != seq![LOWER_F]);
                }
            }
            None
        }
    } else {
        if c.len() == 0 {
            Some(Value::BulkString(None))
        } else {
            None
        }
    }
}

proof fn lemma_prepend_step(fs: Seq<Frame>, f: Frame, r: ParsedItems)
    ensures
        prepend(fs, prepend(seq![f], r)) == prepend(fs.push(f), r),
{
    if let ParsedItems::Done(gs, e) = r {
        assert(fs + (seq![f] + gs) =~= fs.push(f) + gs);
    }
}

fn decode_items(buf: &[u8], pos: usize, n: u64) -> (r: ItemsStep)
    requires
        pos <= buf@.len(),
    ensures
        items_step_matches(r, items(buf@, pos as int, n as nat)),
    decreases buf@.len() - pos, 1int,
{
    let mut values: Vec<Value> = Vec::new();
    let ghost mut fs: Seq<Frame> = Seq::empty();
    let mut cur = pos;
    let mut k: u64 = 0;
    assert(items(buf@, pos as int, n as nat) == prepend(fs, items(buf@, pos as int, n as nat))) by {
        if let ParsedItems::Done(gs, e) = items(buf@, pos as int, n as nat) {
            assert(fs + gs =~= gs);
        }
    }
    while k < n
        invariant
            pos <= cur <= buf@.len(),
            k <= n,
            items(buf@, pos as int, n as nat) == prepend(fs, items(buf@, cur as int, (n - k) as nat)),
            all_represent(values@, fs),
        decreases n - k,
    {
        let step = decode_at(buf, cur);
        proof {
            lemma_parse_bounds(buf@, cur as int);
        }
        match step {
            Step::Done(v, e) => {
                let ghost f = parse(buf@, cur as int)->Done_0;
                proof {
                    lemma_prepend_step(fs, f, items(buf@, e as int, (n - k - 1) as nat));
                }
                values.push(v);
                proof {
                    fs = fs.push(f);
                }
                cur = e;
                k = k + 1;
            },
            Step::Incomplete => {
                return ItemsStep::Incomplete;
            },
            Step::Invalid(p) => {
                return ItemsStep::Invalid(p);
            },
        }
    }
    assert(fs + Seq::<Frame>::empty() =~= fs);
    ItemsStep::Done(values, cur)
}

fn decode_at(buf: &[u8], pos: usize) -> (r: Step)
    requires
        pos <= buf@.len(),
    ensures
        step_matches(r, parse(buf@, pos as int)),
    decreases buf@.len() - pos, 0int,
{
    if pos >= buf.len() {
        return Step::Incomplete;
    }
    let t = buf[pos];
    if !(t == PLUS || t == MINUS || t == COLON || t == COMMA || t == HASH || t == UNDERSCORE
        || t == DOLLAR || t == STAR || t == PERCENT || t == TILDE || t == GREATER) {
        return Step::Invalid(pos);
    }
    let start = pos + 1;
    let cr = find_cr(buf, start);
    if cr >= buf.len() || buf.len() - cr < 2 {
        return Step::Incomplete;
    }
    if buf[cr + 1] != LF {
        return Step::Invalid(cr + 1);
    }
    assert(line_at(buf@, start as int) == Line::Complete(cr as int));
    let c = slice_subrange(buf, start, cr);
    let next = cr + 2;
    if t == PLUS || t == MINUS || t == COLON || t == COMMA || t == HASH || t == UNDERSCORE {
        return match decode_line_frame(t, c) {
            Some(v) => Step::Done(v, next),
            None => Step::Invalid(start),
        };
    }
    let n = match integer(c) {
        Some(n) => n,
        None => {
            return Step::Invalid(start);
        },
    };
    if t == DOLLAR {
        if n == -1 {
            return Step::Done(Value::BulkString(None), next);
        }
        if n < -1 {
            return Step::Invalid(start);
        }
        let rem = buf.len() - next;
        if (rem as u64) <= (n as u64) {
            return Step::Incomplete;
        }
        let end = next + n as usize;
        if buf[end] != CR {
            return Step::Invalid(end);
        }
        if rem - (n as usize) < 2 {
            return Step::Incomplete;
        }
        if buf[end + 1] != LF {
            return Step::Invalid(end + 1);
        }
        let payload = slice_to_vec(slice_subrange(buf, next, end));
        return Step::Done(Value::BulkString(Some(payload)), end + 2);
    }
    if t == STAR && n == -1 {
        return Step::Done(Value::Array(None), next);
    }
    if n < 0 {
        return Step::Invalid(start);
    }
    let count: u64 = if t == PERCENT {
        2 * (n as u64)
    } else {
        n as u64
    };
    match decode_items(buf, next, count) {
        ItemsStep::Done(values, e) => {
            if t == GREATER {
                Step::Done(Value::Push(values), e)
            } else {
                Step::Done(Value::Array(Some(values)), e)
            }
        },
        ItemsStep::Incomplete => Step::Incomplete,
        ItemsStep::Invalid(p) => Step::Invalid(p),
    }
}

/// Decodes the frame at the front of `buf`: the value and the number of
/// bytes it took, `None` while the frame is not whole, or a parse error at
/// the position where the bytes stop making sense.
pub fn decode(buf: &[u8]) -> (r: Result<Option<(Value, usize)>, Error>)
    ensures
        decoded_as(r, parse(buf@, 0)),
{
    match decode_at(buf, 0) {
        Step::Done(v, e) => Ok(Some((v, e))),
        Step::Incomplete => Ok(None),
        Step::Invalid(p) => Err(Error::Parse(p)),
    }
}

/// The decoder that a connection's reader runs on its input buffer.
pub struct ValueDecoder;

impl ValueDecoder {
    /// Takes every whole frame at the front of `src` out of it, in order,
    /// and leaves the bytes of the incomplete rest: one run of the decoder,
    /// as `stream::drain` says.  Fails with a parse error when the run meets
    /// a malformed frame.  Run after each piece of input, it reads what
    /// `stream::feed` reads, so `stream::lemma_fragmentation_independence`
    /// holds of it.
    pub fn decode_available(&mut self, src: &mut BytesMut) -> (r: Result<Vec<Value>, Error>)
        ensures
            !drain_fails(buffered(*old(src))) ==> r is Ok && all_represent(
                r->Ok_0@,
                drain(buffered(*old(src))).0,
            ) && buffered(*final(src)) == drain(buffered(*old(src))).1,
            drain_fails(buffered(*old(src))) ==> r is Err && r->Err_0 is Parse,
    {
        let ghost start = buffered(*src);
        let ghost mut fs: Seq<Frame> = Seq::empty();
        let mut values: Vec<Value> = Vec::new();
        loop
            invariant
                start == buffered(*old(src)),
                drain(start) == (fs + drain(buffered(*src)).0, drain(buffered(*src)).1),
                drain_fails(start) == drain_fails(buffered(*src)),
                all_represent(values@, fs),
            decreases buffered(*src).len(),
        {
            let ghost cur = buffered(*src);
            proof {
                lemma_parse_bounds(cur, 0);
            }
            match self.decode(src) {
                Ok(Some(v)) => {
                    let ghost f = parse(cur, 0)->Done_0;
                    proof {
                        let d = drain(cur.subrange(parse(cur, 0)->Done_1, cur.len() as int));
                        assert(fs + (seq![f] + d.0) =~= fs.push(f) + d.0);
                        fs = fs.push(f);
                    }
                    values.push(v);
                },
                Ok(None) => {
                    assert(fs + Seq::<Frame>::empty() =~= fs);
                    return Ok(values);
                },
                Err(e) => {
                    return Err(e);
                },
            }
        }
    }

    /// Takes the frame at the front of `src` out of it, if a whole one is
    /// there.  While the frame is not whole, or when the bytes are malformed,
    /// `src` is left as it was.
    pub fn decode(&mut self, src: &mut BytesMut) -> (r: Result<Option<Value>, Error>)
        ensures
            match parse(buffered(*old(src)), 0) {
                Parsed::Done(f, e) => r is Ok && r->Ok_0 is Some && represents(r->Ok_0->Some_0, f)
                    && buffered(*final(src)) == buffered(*old(src)).subrange(
                    e,
                    buffered(*old(src)).len() as int,
                ),
                Parsed::Incomplete => r == Ok::<Option<Value>, Error>(None) && buffered(*final(src))
                    == buffered(*old(src)),
                Parsed::Invalid(q) => r == Err::<Option<Value>, Error>(Error::Parse(q as usize))
                    && buffered(*final(src)) == buffered(*old(src)),
            },
    {
        let result = decode(buffer_bytes(src));
        match result {
            Ok(Some((value, consumed))) => {
                proof {
                    lemma_parse_bounds(buffered(*src), 0);
                }
                buffer_advance(src, consumed);
                Ok(Some(value))
            },
            Ok(None) => Ok(None),
            Err(e) => Err(e),
        }
    }
}

} // verus!
