//! The bytes that the encoder writes for a command read back, by the grammar,
//! as an array of the command's parts as bulk strings.
use vstd::prelude::*;
use crate::command::{decimal, bulk_encoding, bulks_encoding, command_encoding};
use crate::frame::{
    parse, items, cr_from, line_at, integer_text, digits_value, all_digits, is_digit, Frame,
    Parsed, ParsedItems, Line, CR, LF,
};

verus! {

proof fn lemma_decimal(n: nat)
    ensures
        decimal(n).len() > 0,
        all_digits(decimal(n)),
        digits_value(decimal(n)) == n,
    decreases n,
{
    let d = decimal(n);
    if n < 10 {
        assert(d.drop_last() =~= Seq::<u8>::empty());
        assert(d.last() as int == 0x30 + n);
        assert(digits_value(d) == digits_value(d.drop_last()) * 10 + (d.last() - 0x30));
        assert(digits_value(Seq::<u8>::empty()) == 0);
    } else {
        lemma_decimal(n / 10);
        assert(d.drop_last() =~= decimal(n / 10));
        assert forall|i: int| 0 <= i < d.len() implies is_digit(#[trigger] d[i]) by {
            if i < d.len() - 1 {
                assert(d[i] == decimal(n / 10)[i]);
            }
        }
        assert(d.last() as int == 0x30 + n % 10);
        assert(digits_value(d) == digits_value(d.drop_last()) * 10 + (d.last() - 0x30));
        assert((n / 10) * 10 + n % 10 == n);
    }
}

proof fn lemma_decimal_integer(n: nat)
    requires
        n <= i64::MAX,
    ensures
        integer_text(decimal(n)) == Some(n as int),
{
    lemma_decimal(n);
    assert(is_digit(decimal(n)[0]));
}

proof fn lemma_cr_at(s: Seq<u8>, i: int, j: int)
    requires
        0 <= i <= j < s.len(),
        s[j] == CR,
        forall|k: int| i <= k < j ==> s[k] != CR,
    ensures
        cr_from(s, i) == j,
    decreases j - i,
{
    if i < j {
        lemma_cr_at(s, i + 1, j);
    }
}

/// A line `<decimal n>\r\n` at `start` reads as complete, and spells `n`.
proof fn lemma_decimal_line(s: Seq<u8>, start: int, n: nat)
    requires
        0 <= start,
        start + decimal(n).len() + 2 <= s.len(),
        s.subrange(start, start + decimal(n).len() + 2) == decimal(n) + seq![CR, LF],
    ensures
        line_at(s, start) == Line::Complete(start + decimal(n).len()),
        s.subrange(start, start + decimal(n).len()) == decimal(n),
{
    let d = decimal(n);
    let t = s.subrange(start, start + d.len() + 2);
    lemma_decimal(n);
    assert forall|k: int| start <= k < start + d.len() implies s[k] != CR by {
        assert(s[k] == t[k - start]);
        assert(t[k - start] == d[k - start]);
        assert(is_digit(d[k - start]));
    }
    assert(s[start + d.len()] == t[d.len() as int]);
    assert(s[start + d.len() + 1] == t[d.len() + 1int]);
    lemma_cr_at(s, start, start + d.len());
    assert(s.subrange(start, start + d.len()) =~= d);
}

proof fn lemma_bulks_front(parts: Seq<Seq<u8>>)
    requires
        parts.len() > 0,
    ensures
        bulks_encoding(parts) == bulk_encoding(parts[0]) + bulks_encoding(parts.drop_first()),
    decreases parts.len(),
{
    if parts.len() == 1 {
        assert(parts.drop_last() =~= Seq::<Seq<u8>>::empty());
        assert(parts.drop_first() =~= Seq::<Seq<u8>>::empty());
        assert(bulks_encoding(parts) =~= bulk_encoding(parts[0]) + bulks_encoding(
            parts.drop_first(),
        ));
    } else {
        lemma_bulks_front(parts.drop_last());
        assert(parts.drop_first().drop_last() =~= parts.drop_last().drop_first());
        assert(parts.drop_last()[0] == parts[0]);
        assert(parts.drop_first().last() == parts.last());
        assert(bulks_encoding(parts) =~= bulk_encoding(parts[0]) + bulks_encoding(
            parts.drop_first(),
        ));
    }
}

/// The bytes of a bulk string, wherever they stand, read as that bulk string.
proof fn lemma_bulk_reads_back(s: Seq<u8>, pos: int, b: Seq<u8>)
    requires
        0 <= pos,
        b.len() <= i64::MAX,
        pos + bulk_encoding(b).len() <= s.len(),
        s.subrange(pos, pos + bulk_encoding(b).len()) == bulk_encoding(b),
    ensures
        parse(s, pos) == Parsed::Done(Frame::Bulk(Some(b)), pos + bulk_encoding(b).len()),
{
    let enc = bulk_encoding(b);
    let d = decimal(b.len());
    let start = pos + 1;
    assert(s[pos] == enc[0]);
    assert(s.subrange(start, start + d.len() + 2) =~= d + seq![CR, LF]) by {
        assert forall|k: int| 0 <= k < d.len() + 2 implies #[trigger] s.subrange(
            start,
            start + d.len() + 2,
        )[k] == (d + seq![CR, LF])[k] by {
            assert(s[start + k] == enc[1 + k]);
        }
    }
    lemma_decimal_line(s, start, b.len());
    lemma_decimal_integer(b.len());
    let next = start + d.len() + 2;
    let n = b.len() as int;
    assert(s[next + n] == enc[1 + d.len() + 2 + n]);
    assert(s[next + n + 1] == enc[1 + d.len() + 2 + n + 1]);
    assert(s.subrange(next, next + n) =~= b) by {
        assert forall|k: int| 0 <= k < n implies #[trigger] s.subrange(next, next + n)[k] == b[k] by {
            assert(s[next + k] == enc[1 + d.len() + 2 + k]);
        }
    }
}

/// The bulk strings of `parts`, back to back, read as `parts`.
proof fn lemma_bulks_read_back(s: Seq<u8>, pos: int, parts: Seq<Seq<u8>>)
    requires
        0 <= pos,
        forall|i: int| 0 <= i < parts.len() ==> (#[trigger] parts[i]).len() <= i64::MAX,
        pos + bulks_encoding(parts).len() <= s.len(),
        s.subrange(pos, pos + bulks_encoding(parts).len()) == bulks_encoding(parts),
    ensures
        items(s, pos, parts.len()) == ParsedItems::Done(
            parts.map_values(|b: Seq<u8>| Frame::Bulk(Some(b))),
            pos + bulks_encoding(parts).len(),
        ),
    decreases parts.len(),
{
    if parts.len() == 0 {
        assert(parts.map_values(|b: Seq<u8>| Frame::Bulk(Some(b))) =~= Seq::<Frame>::empty());
    } else {
        lemma_bulks_front(parts);
        let first = bulk_encoding(parts[0]);
        let rest = bulks_encoding(parts.drop_first());
        let whole = s.subrange(pos, pos + bulks_encoding(parts).len());
        assert(s.subrange(pos, pos + first.len()) =~= first) by {
            assert forall|k: int| 0 <= k < first.len() implies #[trigger] s.subrange(
                pos,
                pos + first.len(),
            )[k] == first[k] by {
                assert(s[pos + k] == whole[k]);
            }
        }
        lemma_bulk_reads_back(s, pos, parts[0]);
        let e = pos + first.len();
        assert(s.subrange(e, e + rest.len()) =~= rest) by {
            assert forall|k: int| 0 <= k < rest.len() implies #[trigger] s.subrange(
                e,
                e + rest.len(),
            )[k] == rest[k] by {
                assert(s[e + k] == whole[first.len() + k]);
            }
        }
        assert forall|i: int| 0 <= i < parts.drop_first().len() implies (
        #[trigger] parts.drop_first()[i]).len() <= i64::MAX by {
            assert(parts.drop_first()[i] == parts[i + 1]);
        }
        lemma_bulks_read_back(s, e, parts.drop_first());
        assert(seq![Frame::Bulk(Some(parts[0]))] + parts.drop_first().map_values(
            |b: Seq<u8>| Frame::Bulk(Some(b)),
        ) =~= parts.map_values(|b: Seq<u8>| Frame::Bulk(Some(b))));
    }
}

/// Round trip: the encoding of a command reads back, whole, as an array of
/// its parts as bulk strings.
pub proof fn lemma_command_round_trip(parts: Seq<Seq<u8>>)
    requires
        parts.len() <= i64::MAX,
        forall|i: int| 0 <= i < parts.len() ==> (#[trigger] parts[i]).len() <= i64::MAX,
    ensures
        parse(command_encoding(parts), 0) == Parsed::Done(
            Frame::Array(Some(parts.map_values(|b: Seq<u8>| Frame::Bulk(Some(b))))),
            command_encoding(parts).len() as int,
        ),
{
    let s = command_encoding(parts);
    let d = decimal(parts.len());
    assert(s[0] == 0x2au8);
    assert(s.subrange(1, 1 + d.len() + 2int) =~= d + seq![CR, LF]);
    lemma_decimal_line(s, 1, parts.len());
    lemma_decimal_integer(parts.len());
    let next = 1 + d.len() + 2int;
    assert(s.subrange(next, s.len() as int) =~= bulks_encoding(parts));
    lemma_bulks_read_back(s, next, parts);
}

} // verus!
