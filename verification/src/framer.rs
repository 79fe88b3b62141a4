//! Cutting a byte stream into top-level JSON objects.
//!
//! The framer looks at braces, double quotes and backslashes only. It keeps a
//! brace depth, whether it is inside a string, and whether the previous byte
//! was an unescaped backslash. An object starts with an opening brace met at depth zero
//! and ends with the closing brace that brings the depth back to zero. The
//! stream may be handed over in chunks of any size: what comes out does not
//! depend on where the chunks are cut.

use vstd::prelude::*;

verus! {

/// The byte `"`.
pub const QUOTE: u8 = 0x22;

/// The byte `\`.
pub const BACKSLASH: u8 = 0x5c;

/// The byte `{`.
pub const OPEN: u8 = 0x7b;

/// The byte `}`.
pub const CLOSE: u8 = 0x7d;

/// What the scanner knows after a prefix of the stream.
pub struct ScanState {
    /// Brace depth, counted modulo 2^32: a closing brace at depth zero wraps
    /// around, and the scanner is back at top level only after as many
    /// opening braces.
    pub depth: u32,
    /// Inside a JSON string.
    pub in_string: bool,
    /// The previous byte was a backslash that was not itself escaped.
    pub escaped: bool,
    /// The bytes read since the depth last left zero; empty at depth zero.
    pub pending: Seq<u8>,
}

/// The state before the first byte, and after every complete object.
pub open spec fn rest() -> ScanState {
    ScanState { depth: 0, in_string: false, escaped: false, pending: Seq::empty() }
}

/// The depth one level further in.
pub open spec fn deeper(depth: u32) -> u32 {
    if depth == u32::MAX {
        0
    } else {
        (depth + 1) as u32
    }
}

/// The depth one level further out.
pub open spec fn shallower(depth: u32) -> u32 {
    if depth == 0 {
        u32::MAX
    } else {
        (depth - 1) as u32
    }
}

/// Whether reading `b` in state `s` completes an object: `b` is a closing
/// brace outside a string that brings the depth to zero.
pub open spec fn closes_object(s: ScanState, b: u8) -> bool {
    b == CLOSE && !s.in_string && s.depth == 1
}

/// The state after reading `b` in state `s`.
pub open spec fn scan_step(s: ScanState, b: u8) -> ScanState {
    let in_string = if b == QUOTE && !s.escaped {
        !s.in_string
    } else {
        s.in_string
    };
    let depth = if in_string {
        s.depth
    } else if b == OPEN {
        deeper(s.depth)
    } else if b == CLOSE {
        shallower(s.depth)
    } else {
        s.depth
    };
    ScanState {
        depth,
        in_string,
        escaped: b == BACKSLASH && !s.escaped,
        pending: if depth == 0 {
            Seq::empty()
        } else {
            s.pending.push(b)
        },
    }
}

/// The state after reading `bytes` from state `s`.
pub open spec fn scan_state(s: ScanState, bytes: Seq<u8>) -> ScanState
    decreases bytes.len(),
{
    if bytes.len() == 0 {
        s
    } else {
        scan_step(scan_state(s, bytes.drop_last()), bytes.last())
    }
}

/// The objects completed while reading `bytes` from state `s`, in stream
/// order. Each one runs from the byte at which the depth left zero to its
/// closing brace, both included.
pub open spec fn scan_objects(s: ScanState, bytes: Seq<u8>) -> Seq<Seq<u8>>
    decreases bytes.len(),
{
    if bytes.len() == 0 {
        Seq::empty()
    } else {
        let before = scan_state(s, bytes.drop_last());
        let found = scan_objects(s, bytes.drop_last());
        if closes_object(before, bytes.last()) {
            found.push(before.pending.push(bytes.last()))
        } else {
            found
        }
    }
}

/// The top-level objects of a whole stream. An object left open at the end
/// of the stream is not among them.
pub open spec fn frame(stream: Seq<u8>) -> Seq<Seq<u8>> {
    scan_objects(rest(), stream)
}

/// The contents of a list of buffers.
pub open spec fn buffers(v: Seq<Vec<u8>>) -> Seq<Seq<u8>> {
    Seq::new(v.len(), |i: int| v[i]@)
}

/// Reading `a` and then `b` is reading `a + b`.
pub proof fn lemma_scan_concat(s: ScanState, a: Seq<u8>, b: Seq<u8>)
    ensures
        scan_state(s, a + b) == scan_state(scan_state(s, a), b),
        scan_objects(s, a + b) == scan_objects(s, a) + scan_objects(scan_state(s, a), b),
    decreases b.len(),
{
    if b.len() == 0 {
        assert(a + b =~= a);
        assert(scan_objects(s, a) + Seq::<Seq<u8>>::empty() =~= scan_objects(s, a));
    } else {
        lemma_scan_concat(s, a, b.drop_last());
        assert((a + b).drop_last() =~= a + b.drop_last());
        assert((a + b).last() == b.last());
        let mid = scan_state(s, a);
        let before = scan_state(mid, b.drop_last());
        if closes_object(before, b.last()) {
            assert(scan_objects(s, a + b) =~= scan_objects(s, a) + scan_objects(mid, b));
        }
    }
}

/// One byte more: the state and the objects after `bytes.take(i + 1)` follow
/// from those after `bytes.take(i)`.
pub proof fn lemma_scan_next(s: ScanState, bytes: Seq<u8>, i: int)
    requires
        0 <= i < bytes.len(),
    ensures
        scan_state(s, bytes.take(i + 1)) == scan_step(scan_state(s, bytes.take(i)), bytes[i]),
        scan_objects(s, bytes.take(i + 1)) == if closes_object(
            scan_state(s, bytes.take(i)),
            bytes[i],
        ) {
            scan_objects(s, bytes.take(i)).push(scan_state(s, bytes.take(i)).pending.push(bytes[i]))
        } else {
            scan_objects(s, bytes.take(i))
        },
{
    assert(bytes.take(i + 1).drop_last() =~= bytes.take(i));
    assert(bytes.take(i + 1).last() == bytes[i]);
}

/// A run of bytes that may stand between two objects: none of them is a
/// brace, a double quote or a backslash. White space and commas are such.
pub open spec fn is_gap(g: Seq<u8>) -> bool {
    forall|i: int|
        0 <= i < g.len() ==> g[i] != OPEN && g[i] != CLOSE && g[i] != QUOTE && #[trigger] g[i]
            != BACKSLASH
}

/// One balanced object, as every JSON object is: it begins with an opening
/// brace, ends with a closing brace outside any string, and within it the
/// depth comes back to zero at that last byte only. Braces inside strings
/// do not count, and a quote after a backslash does not end a string.
pub open spec fn is_object(o: Seq<u8>) -> bool {
    &&& o.len() > 0
    &&& o[0] == OPEN
    &&& forall|k: int| 0 < k < o.len() ==> (#[trigger] scan_state(rest(), o.take(k))).depth != 0
    &&& closes_object(scan_state(rest(), o.drop_last()), o.last())
}

/// The stream made of `gaps[0]`, `objects[0]`, `gaps[1]` and so on up to the
/// last gap: one gap more than objects.
pub open spec fn interleaved(gaps: Seq<Seq<u8>>, objects: Seq<Seq<u8>>) -> Seq<u8>
    decreases objects.len(),
{
    if objects.len() == 0 || gaps.len() == 0 {
        if gaps.len() == 0 {
            Seq::empty()
        } else {
            gaps[0]
        }
    } else {
        interleaved(gaps.drop_last(), objects.drop_last()) + objects.last() + gaps.last()
    }
}

/// A gap changes nothing: read at rest, it leaves the scanner at rest and
/// completes no object.
pub proof fn lemma_gap(g: Seq<u8>)
    requires
        is_gap(g),
    ensures
        scan_state(rest(), g) == rest(),
        scan_objects(rest(), g) == Seq::<Seq<u8>>::empty(),
    decreases g.len(),
{
    if g.len() > 0 {
        assert(is_gap(g.drop_last())) by {
            assert forall|i: int| 0 <= i < g.drop_last().len() implies g.drop_last()[i] != OPEN
                && g.drop_last()[i] != CLOSE && g.drop_last()[i] != QUOTE
                && #[trigger] g.drop_last()[i] != BACKSLASH by {
                assert(g.drop_last()[i] == g[i]);
            }
        }
        lemma_gap(g.drop_last());
        assert(g.last() == g[g.len() - 1]);
        assert(scan_step(rest(), g.last()).pending =~= rest().pending);
    }
}

/// Inside a balanced object the scanner holds every byte read so far and
/// has completed nothing.
proof fn lemma_inside_object(o: Seq<u8>, k: int)
    requires
        is_object(o),
        0 < k < o.len(),
    ensures
        scan_state(rest(), o.take(k)).pending == o.take(k),
        scan_objects(rest(), o.take(k)) == Seq::<Seq<u8>>::empty(),
    decreases k,
{
    lemma_scan_next(rest(), o, k - 1);
    assert(o.take(0) =~= Seq::<u8>::empty());
    if k == 1 {
        assert(scan_state(rest(), o.take(1)).pending =~= o.take(1));
    } else {
        lemma_inside_object(o, k - 1);
        assert(scan_state(rest(), o.take(k - 1)).depth != 0);
        assert(scan_state(rest(), o.take(k)).depth != 0);
        assert(o.take(k - 1).push(o[k - 1]) =~= o.take(k));
    }
}

/// A balanced object read at rest comes out as it is, alone, and leaves the
/// scanner at rest.
pub proof fn lemma_object(o: Seq<u8>)
    requires
        is_object(o),
    ensures
        scan_state(rest(), o) == rest(),
        scan_objects(rest(), o) == seq![o],
{
    let n = o.len() as int;
    assert(o.take(n) =~= o);
    assert(o.take(n - 1) =~= o.drop_last());
    lemma_scan_next(rest(), o, n - 1);
    if n == 1 {
        assert(o.take(0) =~= Seq::<u8>::empty());
        assert(false);
    } else {
        lemma_inside_object(o, n - 1);
        assert(o.take(n - 1).push(o[n - 1]) =~= o);
        assert(scan_objects(rest(), o) =~= seq![o]);
        assert(scan_state(rest(), o).pending =~= rest().pending);
    }
}

/// The framer finds the objects of a stream: where balanced objects stand
/// one after the other with gaps between, before and after them, what comes
/// out is these objects, as many and in this order, each byte for byte; and
/// the scanner is at rest at the end.
pub proof fn lemma_frame_stream(gaps: Seq<Seq<u8>>, objects: Seq<Seq<u8>>)
    requires
        gaps.len() == objects.len() + 1,
        forall|i: int| 0 <= i < gaps.len() ==> is_gap(#[trigger] gaps[i]),
        forall|i: int| 0 <= i < objects.len() ==> is_object(#[trigger] objects[i]),
    ensures
        frame(interleaved(gaps, objects)) == objects,
        scan_state(rest(), interleaved(gaps, objects)) == rest(),
    decreases objects.len(),
{
    if objects.len() == 0 {
        lemma_gap(gaps[0]);
        assert(objects =~= Seq::<Seq<u8>>::empty());
    } else {
        let head = interleaved(gaps.drop_last(), objects.drop_last());
        lemma_frame_stream(gaps.drop_last(), objects.drop_last());
        lemma_object(objects.last());
        lemma_gap(gaps.last());
        lemma_scan_concat(rest(), head, objects.last());
        lemma_scan_concat(rest(), head + objects.last(), gaps.last());
        assert(frame(interleaved(gaps, objects)) =~= objects);
    }
}

/// A part of the text of a JSON object, as the grammar of JSON has it.
pub enum Piece {
    /// A byte outside strings that is no brace, no double quote and no
    /// backslash: white space, a comma, a colon, a digit, a letter.
    Plain(u8),
    /// A string, by the bytes between its two quotes.
    Quoted(Seq<u8>),
    /// A nested object, by the pieces between its two braces.
    Nested(Seq<Piece>),
}

/// The bytes between the quotes of a string: bytes that are no quote and no
/// backslash, and escapes, each a backslash with the byte after it.
pub open spec fn is_string_body(body: Seq<u8>) -> bool
    decreases body.len(),
{
    if body.len() == 0 {
        true
    } else if body[0] == BACKSLASH {
        body.len() >= 2 && is_string_body(body.skip(2))
    } else if body[0] == QUOTE {
        false
    } else {
        is_string_body(body.skip(1))
    }
}

/// The piece is well formed, and nested `room` levels deep at most.
pub open spec fn piece_ok(p: Piece, room: nat) -> bool
    decreases p,
{
    match p {
        Piece::Plain(b) => b != OPEN && b != CLOSE && b != QUOTE && b != BACKSLASH,
        Piece::Quoted(body) => is_string_body(body),
        Piece::Nested(inner) => room > 0 && forall|i: int|
            0 <= i < inner.len() ==> piece_ok(#[trigger] inner[i], (room - 1) as nat),
    }
}

/// The bytes of a piece.
pub open spec fn piece_bytes(p: Piece) -> Seq<u8>
    decreases p, 1int,
{
    match p {
        Piece::Plain(b) => seq![b],
        Piece::Quoted(body) => seq![QUOTE] + body + seq![QUOTE],
        Piece::Nested(inner) => seq![OPEN] + pieces_bytes(inner, inner.len() as int) + seq![CLOSE],
    }
}

/// The bytes of the first `n` pieces of a list, one after the other.
pub open spec fn pieces_bytes(ps: Seq<Piece>, n: int) -> Seq<u8>
    decreases ps, 0int, n,
{
    if n <= 0 || n > ps.len() {
        Seq::empty()
    } else {
        pieces_bytes(ps, n - 1) + piece_bytes(ps[n - 1])
    }
}

/// Over every prefix of `bytes`, read from state `s`, the depth stays at
/// `depth` or deeper.
pub open spec fn stays_deep(s: ScanState, bytes: Seq<u8>, depth: u32) -> bool {
    forall|k: int| 0 <= k <= bytes.len() ==> (#[trigger] scan_state(s, bytes.take(k))).depth >= depth
}

/// The scanner stands where it stood: at the same depth, outside strings as
/// before, with no escape open.
pub open spec fn same_place(t: ScanState, s: ScanState) -> bool {
    t.depth == s.depth && t.in_string == s.in_string && t.escaped == s.escaped
}

/// What stays deep over one run of bytes and over the next stays deep over
/// the two in a row.
proof fn lemma_stays_deep_concat(s: ScanState, a: Seq<u8>, b: Seq<u8>, depth: u32)
    requires
        stays_deep(s, a, depth),
        stays_deep(scan_state(s, a), b, depth),
    ensures
        stays_deep(s, a + b, depth),
{
    assert forall|k: int| 0 <= k <= (a + b).len() implies (#[trigger] scan_state(
        s,
        (a + b).take(k),
    )).depth >= depth by {
        if k <= a.len() {
            assert((a + b).take(k) =~= a.take(k));
        } else {
            assert((a + b).take(k) =~= a + b.take(k - a.len()));
            lemma_scan_concat(s, a, b.take(k - a.len()));
        }
    }
}

/// One byte read.
proof fn lemma_scan_one(s: ScanState, b: u8)
    ensures
        scan_state(s, seq![b]) == scan_step(s, b),
        stays_deep(s, seq![b], s.depth) <==> scan_step(s, b).depth >= s.depth,
{
    let one = seq![b];
    assert(one.drop_last() =~= Seq::<u8>::empty());
    assert(one.last() == b);
    assert(scan_state(s, one.drop_last()) == s);
    assert(one.take(1) =~= one);
    assert(one.take(0) =~= Seq::<u8>::empty());
    if scan_step(s, b).depth >= s.depth {
        assert forall|k: int| 0 <= k <= one.len() implies (#[trigger] scan_state(
            s,
            one.take(k),
        )).depth >= s.depth by {
            if k == 0 {
                assert(one.take(0) =~= Seq::<u8>::empty());
            } else {
                assert(one.take(k) =~= one);
            }
        }
    }
    if stays_deep(s, one, s.depth) {
        assert(scan_state(s, one.take(1)).depth >= s.depth);
    }
}

/// Inside a string the scanner reads the bytes up to the closing quote
/// without a change of depth, and is inside the string after them.
proof fn lemma_string_body(s: ScanState, body: Seq<u8>)
    requires
        is_string_body(body),
        s.in_string,
        !s.escaped,
    ensures
        same_place(scan_state(s, body), s),
        stays_deep(s, body, s.depth),
    decreases body.len(),
{
    if body.len() == 0 {
        assert(body.take(0) =~= body);
        assert forall|k: int| 0 <= k <= body.len() implies (#[trigger] scan_state(
            s,
            body.take(k),
        )).depth >= s.depth by {
            assert(body.take(k) =~= Seq::<u8>::empty());
        }
    } else if body[0] == BACKSLASH {
        let first = seq![body[0]];
        let second = seq![body[1]];
        let rest = body.skip(2);
        assert(body =~= first + second + rest);
        lemma_scan_one(s, body[0]);
        let s1 = scan_step(s, body[0]);
        lemma_scan_one(s1, body[1]);
        let s2 = scan_step(s1, body[1]);
        lemma_string_body(s2, rest);
        lemma_scan_concat(s, first, second);
        lemma_stays_deep_concat(s, first, second, s.depth);
        lemma_scan_concat(s, first + second, rest);
        lemma_stays_deep_concat(s, first + second, rest, s.depth);
    } else {
        let first = seq![body[0]];
        let rest = body.skip(1);
        assert(body =~= first + rest);
        lemma_scan_one(s, body[0]);
        let s1 = scan_step(s, body[0]);
        lemma_string_body(s1, rest);
        lemma_scan_concat(s, first, rest);
        lemma_stays_deep_concat(s, first, rest, s.depth);
    }
}

/// Outside strings and inside an object, the scanner reads a well-formed
/// piece without coming above the depth at which it began, and stands after
/// it where it stood before.
proof fn lemma_piece(p: Piece, room: nat, s: ScanState)
    requires
        piece_ok(p, room),
        !s.in_string,
        !s.escaped,
        1 <= s.depth,
        s.depth + room <= u32::MAX,
    ensures
        same_place(scan_state(s, piece_bytes(p)), s),
        stays_deep(s, piece_bytes(p), s.depth),
    decreases p, 1int,
{
    match p {
        Piece::Plain(b) => {
            lemma_scan_one(s, b);
        },
        Piece::Quoted(body) => {
            let open = seq![QUOTE];
            lemma_scan_one(s, QUOTE);
            let s1 = scan_step(s, QUOTE);
            lemma_string_body(s1, body);
            let s2 = scan_state(s1, body);
            lemma_scan_one(s2, QUOTE);
            lemma_scan_concat(s, open, body);
            lemma_stays_deep_concat(s, open, body, s.depth);
            lemma_scan_concat(s, open + body, open);
            lemma_stays_deep_concat(s, open + body, open, s.depth);
        },
        Piece::Nested(inner) => {
            let open = seq![OPEN];
            let close = seq![CLOSE];
            let middle = pieces_bytes(inner, inner.len() as int);
            lemma_scan_one(s, OPEN);
            let s1 = scan_step(s, OPEN);
            assert(s1.depth == s.depth + 1);
            lemma_pieces(inner, inner.len() as int, (room - 1) as nat, s1);
            let s2 = scan_state(s1, middle);
            lemma_scan_one(s2, CLOSE);
            assert(stays_deep(s1, middle, s.depth)) by {
                assert forall|k: int| 0 <= k <= middle.len() implies (#[trigger] scan_state(
                    s1,
                    middle.take(k),
                )).depth >= s.depth by {}
            }
            assert(stays_deep(s2, close, s.depth)) by {
                assert forall|k: int| 0 <= k <= close.len() implies (#[trigger] scan_state(
                    s2,
                    close.take(k),
                )).depth >= s.depth by {
                    if k == 0 {
                        assert(close.take(0) =~= Seq::<u8>::empty());
                    } else {
                        assert(close.take(k) =~= close);
                    }
                }
            }
            lemma_scan_concat(s, open, middle);
            lemma_stays_deep_concat(s, open, middle, s.depth);
            lemma_scan_concat(s, open + middle, close);
            lemma_stays_deep_concat(s, open + middle, close, s.depth);
        },
    }
}

/// The same for the first `n` pieces of a list.
proof fn lemma_pieces(ps: Seq<Piece>, n: int, room: nat, s: ScanState)
    requires
        0 <= n <= ps.len(),
        forall|i: int| 0 <= i < ps.len() ==> piece_ok(#[trigger] ps[i], room),
        !s.in_string,
        !s.escaped,
        1 <= s.depth,
        s.depth + room <= u32::MAX,
    ensures
        same_place(scan_state(s, pieces_bytes(ps, n)), s),
        stays_deep(s, pieces_bytes(ps, n), s.depth),
    decreases ps, 0int, n,
{
    if n == 0 {
        let none = pieces_bytes(ps, 0);
        assert forall|k: int| 0 <= k <= none.len() implies (#[trigger] scan_state(
            s,
            none.take(k),
        )).depth >= s.depth by {
            assert(none.take(k) =~= Seq::<u8>::empty());
        }
    } else {
        lemma_pieces(ps, n - 1, room, s);
        let before = pieces_bytes(ps, n - 1);
        let s1 = scan_state(s, before);
        lemma_piece(ps[n - 1], room, s1);
        lemma_scan_concat(s, before, piece_bytes(ps[n - 1]));
        lemma_stays_deep_concat(s, before, piece_bytes(ps[n - 1]), s.depth);
    }
}

/// The text of a JSON object is a balanced object: an opening brace, then
/// well-formed pieces, strings with their escapes and nested objects among
/// them, then a closing brace. The nesting is to stay below 2^32 levels.
pub proof fn lemma_grammar_object(inner: Seq<Piece>, room: nat)
    requires
        piece_ok(Piece::Nested(inner), room),
        room <= u32::MAX,
    ensures
        is_object(piece_bytes(Piece::Nested(inner))),
{
    let o = piece_bytes(Piece::Nested(inner));
    let open = seq![OPEN];
    let middle = pieces_bytes(inner, inner.len() as int);
    let close = seq![CLOSE];
    assert(o == open + middle + close);
    assert(o[0] == OPEN);
    lemma_scan_one(rest(), OPEN);
    let s1 = scan_step(rest(), OPEN);
    lemma_pieces(inner, inner.len() as int, (room - 1) as nat, s1);
    lemma_scan_concat(rest(), open, middle);
    assert(o.drop_last() =~= open + middle);
    assert(o.last() == CLOSE);
    assert forall|k: int| 0 < k < o.len() implies (#[trigger] scan_state(rest(), o.take(k))).depth
        != 0 by {
        assert(o.take(k) =~= open + middle.take(k - 1));
        lemma_scan_concat(rest(), open, middle.take(k - 1));
        assert(scan_state(s1, middle.take(k - 1)).depth >= 1);
    }
}

/// The scanner, fed chunk by chunk.
pub struct Framer {
    braces: u32,
    quotes: bool,
    backslash: bool,
    /// The part of an open object that earlier chunks held.
    osave: Vec<u8>,
}

impl View for Framer {
    type V = ScanState;

    closed spec fn view(&self) -> ScanState {
        ScanState {
            depth: self.braces,
            in_string: self.quotes,
            escaped: self.backslash,
            pending: self.osave@,
        }
    }
}

/// Appends `src[from..to]` to `dst`.
fn append_range(dst: &mut Vec<u8>, src: &[u8], from: usize, to: usize)
    requires
        from <= to <= src@.len(),
    ensures
        final(dst)@ == old(dst)@ + src@.subrange(from as int, to as int),
{
    let mut k: usize = from;
    while k < to
        invariant
            from <= k <= to <= src@.len(),
            dst@ == old(dst)@ + src@.subrange(from as int, k as int),
        decreases to - k,
    {
        dst.push(src[k]);
        k += 1;
        assert(dst@ =~= old(dst)@ + src@.subrange(from as int, k as int));
    }
}

impl Framer {
    /// Nothing is carried over at depth zero.
    pub closed spec fn wf(&self) -> bool {
        self.braces == 0 ==> self.osave@.len() == 0
    }

    /// A framer at the start of a stream.
    pub fn new() -> (f: Framer)
        ensures
            f.wf(),
            f@ == rest(),
    {
        Framer { braces: 0, quotes: false, backslash: false, osave: Vec::new() }
    }

    /// Reads the next chunk of the stream and returns the objects that end in
    /// it, each as a buffer of its own with both outer braces. An object that
    /// began in an earlier chunk comes out whole. What is still open at the
    /// end of the chunk is kept for the next call.
    pub fn feed(&mut self, chunk: &[u8]) -> (objects: Vec<Vec<u8>>)
        requires
            old(self).wf(),
        ensures
            final(self).wf(),
            final(self)@ == scan_state(old(self)@, chunk@),
            buffers(objects@) == scan_objects(old(self)@, chunk@),
    {
        let ghost start = self@;
        let mut objects: Vec<Vec<u8>> = Vec::new();
        let mut i0: usize = 0;
        let mut i: usize = 0;
        assert(chunk@.take(0) =~= Seq::<u8>::empty());
        assert(buffers(objects@) =~= Seq::<Seq<u8>>::empty());
        assert(self.osave@ + chunk@.subrange(0, 0) =~= self.osave@);
        while i < chunk.len()
            invariant
                i0 <= i <= chunk@.len(),
                self.braces == scan_state(start, chunk@.take(i as int)).depth,
                self.quotes == scan_state(start, chunk@.take(i as int)).in_string,
                self.backslash == scan_state(start, chunk@.take(i as int)).escaped,
                self.braces != 0 ==> scan_state(start, chunk@.take(i as int)).pending
                    == self.osave@ + chunk@.subrange(i0 as int, i as int),
                self.braces == 0 ==> self.osave@.len() == 0,
                self.braces == 0 ==> scan_state(start, chunk@.take(i as int)).pending.len() == 0,
                buffers(objects@) == scan_objects(start, chunk@.take(i as int)),
            decreases chunk@.len() - i,
        {
            let b = chunk[i];
            proof {
                lemma_scan_next(start, chunk@, i as int);
            }
            let ghost before = scan_state(start, chunk@.take(i as int));
            if b == QUOTE && !self.backslash {
                self.quotes = !self.quotes;
            }
            self.backslash = b == BACKSLASH && !self.backslash;
            let was: u32 = self.braces;
            if !self.quotes {
                if b == OPEN {
                    if was == 0 {
                        i0 = i;
                    }
                    self.braces = was.wrapping_add(1);
                    if self.braces == 0 {
                        self.osave.clear();
                    }
                } else if b == CLOSE {
                    if was == 0 {
                        i0 = i;
                    }
                    self.braces = was.wrapping_sub(1);
                    if self.braces == 0 {
                        let mut o: Vec<u8> = Vec::new();
                        core::mem::swap(&mut o, &mut self.osave);
                        append_range(&mut o, chunk, i0, i + 1);
                        proof {
                            assert(chunk@.subrange(i0 as int, i + 1) =~= chunk@.subrange(
                                i0 as int,
                                i as int,
                            ).push(b));
                            assert(o@ =~= before.pending.push(b));
                            let prev = objects@;
                            assert(buffers(prev.push(o)) =~= buffers(prev).push(o@));
                        }
                        objects.push(o);
                    }
                }
            }
            proof {
                if self.braces != 0 {
                    if was == 0 {
                        assert(self.osave@ + chunk@.subrange(i as int, i + 1) =~= Seq::<
                            u8,
                        >::empty().push(b));
                    } else {
                        assert(self.osave@ + chunk@.subrange(i0 as int, i + 1) =~= (self.osave@
                            + chunk@.subrange(i0 as int, i as int)).push(b));
                    }
                }
            }
            i += 1;
        }
        assert(chunk@.take(chunk@.len() as int) =~= chunk@);
        if self.braces != 0 {
            append_range(&mut self.osave, chunk, i0, chunk.len());
        }
        assert(self.osave@ =~= scan_state(start, chunk@).pending);
        objects
    }
}

} // verus!
