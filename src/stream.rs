//! How a decoder behaves over a byte stream that arrives in pieces.
//!
//! The decoder is run each time bytes arrive: it reads frames from the front
//! of its buffer until what is left is not a whole frame.  `drain` is one such
//! run, `feed` a run after each piece.
use vstd::prelude::*;
use crate::frame::{parse, agree, Frame, Parsed, lemma_parse_agree, lemma_parse_cut};

verus! {

/// One run of the decoder over `buf`: the frames read one after another from
/// the front, and the bytes left when the rest is not a whole frame.
pub open spec fn drain(buf: Seq<u8>) -> (Seq<Frame>, Seq<u8>)
    decreases buf.len(),
{
    match parse(buf, 0) {
        Parsed::Done(f, e) => if 0 < e <= buf.len() {
            let r = drain(buf.subrange(e, buf.len() as int));
            (seq![f] + r.0, r.1)
        } else {
            (seq![], buf)
        },
        _ => (seq![], buf),
    }
}

/// A run of the decoder over `buf` stops at a malformed frame.
pub open spec fn drain_fails(buf: Seq<u8>) -> bool
    decreases buf.len(),
{
    match parse(buf, 0) {
        Parsed::Done(f, e) => if 0 < e <= buf.len() {
            drain_fails(buf.subrange(e, buf.len() as int))
        } else {
            false
        },
        Parsed::Invalid(_) => true,
        Parsed::Incomplete => false,
    }
}

/// Pieces `chunks` arrive one at a time at a decoder that holds `buf`; after
/// each, the decoder runs.  The frames it reads, and the bytes it holds at
/// the end.
pub open spec fn feed(buf: Seq<u8>, chunks: Seq<Seq<u8>>) -> (Seq<Frame>, Seq<u8>)
    decreases chunks.len(),
{
    if chunks.len() == 0 {
        (seq![], buf)
    } else {
        let d = drain(buf + chunks[0]);
        let r = feed(d.1, chunks.drop_first());
        (d.0 + r.0, r.1)
    }
}

/// `s` is the frames `fs` written back to back.
pub open spec fn encodes(s: Seq<u8>, fs: Seq<Frame>) -> bool
    decreases fs.len(),
{
    if fs.len() == 0 {
        s.len() == 0
    } else {
        match parse(s, 0) {
            Parsed::Done(f, e) => 0 < e <= s.len() && f == fs[0] && encodes(
                s.subrange(e, s.len() as int),
                fs.drop_first(),
            ),
            _ => false,
        }
    }
}

proof fn lemma_drain_encoded(s: Seq<u8>, fs: Seq<Frame>)
    requires
        encodes(s, fs),
    ensures
        drain(s) == (fs, Seq::<u8>::empty()),
    decreases fs.len(),
{
    if fs.len() == 0 {
        assert(s =~= Seq::<u8>::empty());
    } else {
        let e = parse(s, 0)->Done_1;
        lemma_drain_encoded(s.subrange(e, s.len() as int), fs.drop_first());
        assert(seq![fs[0]] + fs.drop_first() =~= fs);
    }
}

/// A run over the front part `x` of an encoding reads a first run of its
/// frames and leaves bytes that, with the rest, encode the others.
proof fn lemma_drain_front(x: Seq<u8>, y: Seq<u8>, fs: Seq<Frame>)
    requires
        encodes(x + y, fs),
    ensures
        drain(x).0.len() <= fs.len(),
        drain(x).0 == fs.subrange(0, drain(x).0.len() as int),
        encodes(drain(x).1 + y, fs.subrange(drain(x).0.len() as int, fs.len() as int)),
    decreases x.len(),
{
    let xy = x + y;
    if fs.len() == 0 {
        assert(x.len() == 0);
        assert(fs.subrange(0, 0) =~= fs);
    } else {
        let e = parse(xy, 0)->Done_1;
        if e <= x.len() {
            assert(agree(xy, x, e));
            lemma_parse_agree(xy, x, 0);
            let x2 = x.subrange(e, x.len() as int);
            assert(xy.subrange(e, xy.len() as int) =~= x2 + y);
            lemma_drain_front(x2, y, fs.drop_first());
            let m = drain(x2).0.len() as int;
            assert(drain(x).0 =~= fs.subrange(0, m + 1));
            assert(fs.drop_first().subrange(m, fs.len() - 1) =~= fs.subrange(
                m + 1,
                fs.len() as int,
            ));
        } else {
            assert(xy.subrange(0, x.len() as int) =~= x);
            lemma_parse_cut(xy, 0, x.len() as int);
            assert(fs.subrange(0, fs.len() as int) =~= fs);
            assert(fs.subrange(0, 0) =~= Seq::<Frame>::empty());
        }
    }
}

/// What a run leaves holds no whole frame at its front.
proof fn lemma_drain_rest(x: Seq<u8>)
    ensures
        drain(drain(x).1) == (Seq::<Frame>::empty(), drain(x).1),
    decreases x.len(),
{
    if let Parsed::Done(f, e) = parse(x, 0) {
        if 0 < e <= x.len() {
            lemma_drain_rest(x.subrange(e, x.len() as int));
            return;
        }
    }
    assert(drain(x).0 =~= Seq::<Frame>::empty());
}

proof fn lemma_feed(buf: Seq<u8>, chunks: Seq<Seq<u8>>, fs: Seq<Frame>)
    requires
        encodes(buf + chunks.flatten(), fs),
        drain(buf) == (Seq::<Frame>::empty(), buf),
    ensures
        feed(buf, chunks) == (fs, Seq::<u8>::empty()),
    decreases chunks.len(),
{
    if chunks.len() == 0 {
        assert(buf + chunks.flatten() =~= buf);
        lemma_drain_encoded(buf, fs);
    } else {
        let x = buf + chunks[0];
        let y = chunks.drop_first().flatten();
        assert(buf + chunks.flatten() =~= x + y);
        lemma_drain_front(x, y, fs);
        let d = drain(x);
        let m = d.0.len() as int;
        lemma_drain_rest(x);
        lemma_feed(d.1, chunks.drop_first(), fs.subrange(m, fs.len() as int));
        assert(d.0 + fs.subrange(m, fs.len() as int) =~= fs);
    }
}

/// Fragmentation independence: however a stream that encodes the frames `fs`
/// is cut into pieces, a decoder fed the pieces one at a time reads exactly
/// `fs`, in order, and consumes every byte.
pub proof fn lemma_fragmentation_independence(s: Seq<u8>, fs: Seq<Frame>, chunks: Seq<Seq<u8>>)
    requires
        encodes(s, fs),
        chunks.flatten() == s,
    ensures
        feed(Seq::empty(), chunks) == (fs, Seq::<u8>::empty()),
{
    let empty = Seq::<u8>::empty();
    assert(empty + chunks.flatten() =~= s);
    assert(drain(empty) == (Seq::<Frame>::empty(), empty));
    lemma_feed(empty, chunks, fs);
}

/// Partial safety: any strict prefix of a frame reads as incomplete, so the
/// decoder asks for more bytes and leaves its buffer as it was.
pub proof fn lemma_prefix_needs_more(s: Seq<u8>, k: int)
    requires
        parse(s, 0) is Done,
        0 <= k < parse(s, 0)->Done_1,
    ensures
        parse(s.subrange(0, k), 0) is Incomplete,
{
    lemma_parse_cut(s, 0, k);
}

} // verus!
