//! Bencode decoding and encoding.
//!
//! The decoder makes a single forward pass over the input and annotates every
//! decoded node with the byte span `[start, end)` it occupies in the source
//! buffer, so that later operations (most importantly the info-hash
//! computation) can slice the raw bytes of a sub-tree without re-parsing.
//!
//! The meaning of decoding is pinned down by the specification functions
//! `sdec_value`, `sdec_items` and `sdec_pairs`; the executable decoder is
//! proved to return exactly what they describe, and the encoder is proved to
//! be their inverse (`lemma_round_trip`).

use vstd::prelude::*;

verus! {

/// The mathematical model of a bencode value: the tree shape without spans.
pub enum BValue {
    Str(Seq<u8>),
    Integer(int),
    List(Seq<BValue>),
    Dict(Seq<(Seq<u8>, BValue)>),
}

/// The kinds of decoding failure.
#[derive(Debug, Clone, Copy, PartialEq, Eq, Structural)]
pub enum ParseErrorKind {
    /// More bytes were needed to finish the value under construction.
    UnexpectedEnd,
    /// An `i...e` integer was empty, had a leading zero or `-0`, had a stray
    /// byte among its digits, or does not fit in 64 signed bits.
    InvalidInteger,
    /// A declared string length was not followed by `:` or overruns the buffer.
    InvalidLength,
    /// A byte that opens no value (none of `i`, `l`, `d`, a digit).
    InvalidTag,
    /// A dictionary key that is not a byte string.
    NonStringDictKey,
}

/// A decoding failure together with the byte offset at which it was detected.
#[derive(Debug, Clone, Copy, PartialEq, Eq, Structural)]
pub struct ParseError {
    pub kind: ParseErrorKind,
    pub offset: usize,
}

/// A decoded bencode node. Every node records the byte span `[start, end)`
/// that it was decoded from.
#[derive(Debug, PartialEq)]
pub enum BencodeValue {
    Str { bytes: Vec<u8>, start: usize, end: usize },
    Integer { value: i64, start: usize, end: usize },
    List { items: Vec<BencodeValue>, start: usize, end: usize },
    Dict { pairs: Vec<(Vec<u8>, BencodeValue)>, start: usize, end: usize },
}

/// The span-free value of a node.
pub open spec fn view_of(v: BencodeValue) -> BValue
    decreases v,
{
    match v {
        BencodeValue::Str { bytes, .. } => BValue::Str(bytes@),
        BencodeValue::Integer { value, .. } => BValue::Integer(value as int),
        BencodeValue::List { items, .. } => BValue::List(views_of(items@)),
        BencodeValue::Dict { pairs, .. } => BValue::Dict(pair_views_of(pairs@)),
    }
}

/// The span-free values of a sequence of nodes.
pub open spec fn views_of(s: Seq<BencodeValue>) -> Seq<BValue>
    decreases s,
{
    if s.len() == 0 {
        Seq::empty()
    } else {
        views_of(s.drop_last()).push(view_of(s.last()))
    }
}

/// The span-free values of a sequence of key/value pairs.
pub open spec fn pair_views_of(s: Seq<(Vec<u8>, BencodeValue)>) -> Seq<(Seq<u8>, BValue)>
    decreases s,
{
    if s.len() == 0 {
        Seq::empty()
    } else {
        pair_views_of(s.drop_last()).push((s.last().0@, view_of(s.last().1)))
    }
}

impl View for BencodeValue {
    type V = BValue;

    open spec fn view(&self) -> BValue {
        view_of(*self)
    }
}

/// `views_of` maps the sequence pointwise.
pub broadcast proof fn lemma_views_of(s: Seq<BencodeValue>)
    ensures
        (#[trigger] views_of(s)).len() == s.len(),
        forall|i: int| 0 <= i < s.len() ==> views_of(s)[i] == view_of(#[trigger] s[i]),
    decreases s.len(),
{
    if s.len() > 0 {
        lemma_views_of(s.drop_last());
        assert forall|i: int| 0 <= i < s.len() implies views_of(s)[i] == view_of(s[i]) by {
            if i < s.len() - 1 {
                assert(s.drop_last()[i] == s[i]);
            } else {
                assert(s.last() == s[i]);
            }
        }
    }
}

/// `pair_views_of` maps the sequence pointwise.
pub broadcast proof fn lemma_pair_views_of(s: Seq<(Vec<u8>, BencodeValue)>)
    ensures
        (#[trigger] pair_views_of(s)).len() == s.len(),
        forall|i: int|
            0 <= i < s.len() ==> pair_views_of(s)[i] == ((#[trigger] s[i]).0@, view_of(s[i].1)),
    decreases s.len(),
{
    if s.len() > 0 {
        lemma_pair_views_of(s.drop_last());
        assert forall|i: int|
            0 <= i < s.len() implies pair_views_of(s)[i] == (s[i].0@, view_of(s[i].1)) by {
            if i < s.len() - 1 {
                assert(s.drop_last()[i] == s[i]);
            } else {
                assert(s.last() == s[i]);
            }
        }
    }
}

impl BencodeValue {
    /// The inclusive start offset of the node in the source buffer.
    pub open spec fn start(&self) -> usize {
        match self {
            BencodeValue::Str { start, .. } => *start,
            BencodeValue::Integer { start, .. } => *start,
            BencodeValue::List { start, .. } => *start,
            BencodeValue::Dict { start, .. } => *start,
        }
    }

    /// The exclusive end offset of the node in the source buffer.
    pub open spec fn end_pos(&self) -> usize {
        match self {
            BencodeValue::Str { end, .. } => *end,
            BencodeValue::Integer { end, .. } => *end,
            BencodeValue::List { end, .. } => *end,
            BencodeValue::Dict { end, .. } => *end,
        }
    }
}

/// Is `b` an ASCII decimal digit?
pub open spec fn is_bdigit(b: u8) -> bool {
    48 <= b && b <= 57
}

/// The first position at or after `pos` that does not hold a digit
/// (or the end of the buffer).
pub open spec fn digits_end(s: Seq<u8>, pos: int) -> int
    decreases s.len() - pos,
{
    if 0 <= pos < s.len() && is_bdigit(s[pos]) {
        digits_end(s, pos + 1)
    } else {
        pos
    }
}

/// The value of the decimal digits `s[start..end]`.
pub open spec fn dec_value(s: Seq<u8>, start: int, end: int) -> int
    decreases end - start,
{
    if start >= end {
        0
    } else {
        dec_value(s, start, end - 1) * 10 + (s[end - 1] - 48)
    }
}

/// Decoding of a byte string `<digits>:<bytes>`, starting at the first digit.
/// Returns the string contents and the exclusive end offset.
pub open spec fn sdec_str(s: Seq<u8>, pos: int) -> Result<(Seq<u8>, int), (ParseErrorKind, int)>
    recommends
        0 <= pos < s.len() && is_bdigit(s[pos]),
{
    let dend = digits_end(s, pos);
    if dend >= s.len() {
        Err((ParseErrorKind::UnexpectedEnd, dend))
    } else if s[dend] != 58 {
        Err((ParseErrorKind::InvalidLength, dend))
    } else {
        let len = dec_value(s, pos, dend);
        let body = dend + 1;
        if body + len > s.len() {
            Err((ParseErrorKind::InvalidLength, pos))
        } else {
            Ok((s.subrange(body, body + len), body + len))
        }
    }
}

/// Decoding of an integer `i<digits>e`, starting at the `i`.
/// `i-0e` and leading zeros (other than a bare `0`) are rejected, as are
/// values outside the range of `i64`.
pub open spec fn sdec_int(s: Seq<u8>, pos: int) -> Result<(int, int), (ParseErrorKind, int)>
    recommends
        0 <= pos < s.len() && s[pos] == 105,
{
    let q = pos + 1;
    if q >= s.len() {
        Err((ParseErrorKind::UnexpectedEnd, q))
    } else {
        let neg = s[q] == 45;
        let r = if neg { q + 1 } else { q };
        let dend = digits_end(s, r);
        if dend >= s.len() {
            Err((ParseErrorKind::UnexpectedEnd, dend))
        } else if dend == r {
            Err((ParseErrorKind::InvalidInteger, dend))
        } else if s[dend] != 101 {
            Err((ParseErrorKind::InvalidInteger, dend))
        } else if s[r] == 48 && (neg || dend > r + 1) {
            Err((ParseErrorKind::InvalidInteger, r))
        } else {
            let mag = dec_value(s, r, dend);
            let val = if neg { -mag } else { mag };
            if val < i64::MIN as int || val > i64::MAX as int {
                Err((ParseErrorKind::InvalidInteger, r))
            } else {
                Ok((val, dend + 1))
            }
        }
    }
}

/// Decoding of one bencode value starting at `pos`.
/// Returns the value and the exclusive end offset of its encoding.
pub open spec fn sdec_value(s: Seq<u8>, pos: int) -> Result<(BValue, int), (ParseErrorKind, int)>
    decreases s.len() - pos, 0int,
{
    if pos < 0 || pos >= s.len() {
        Err((ParseErrorKind::UnexpectedEnd, pos))
    } else if s[pos] == 105 {
        match sdec_int(s, pos) {
            Ok((v, end)) => Ok((BValue::Integer(v), end)),
            Err(e) => Err(e),
        }
    } else if is_bdigit(s[pos]) {
        match sdec_str(s, pos) {
            Ok((b, end)) => Ok((BValue::Str(b), end)),
            Err(e) => Err(e),
        }
    } else if s[pos] == 108 {
        match sdec_items(s, pos + 1) {
            Ok((items, end)) => Ok((BValue::List(items), end)),
            Err(e) => Err(e),
        }
    } else if s[pos] == 100 {
        match sdec_pairs(s, pos + 1) {
            Ok((prs, end)) => Ok((BValue::Dict(prs), end)),
            Err(e) => Err(e),
        }
    } else {
        Err((ParseErrorKind::InvalidTag, pos))
    }
}

/// Decoding of list elements up to and including the closing `e`.
pub open spec fn sdec_items(s: Seq<u8>, pos: int) -> Result<
    (Seq<BValue>, int),
    (ParseErrorKind, int),
>
    decreases s.len() - pos, 1int,
{
    if pos < 0 || pos >= s.len() {
        Err((ParseErrorKind::UnexpectedEnd, pos))
    } else if s[pos] == 101 {
        Ok((Seq::empty(), pos + 1))
    } else {
        match sdec_value(s, pos) {
            Ok((v, vend)) => if pos < vend <= s.len() {
                match sdec_items(s, vend) {
                    Ok((rest, end)) => Ok((seq![v] + rest, end)),
                    Err(e) => Err(e),
                }
            } else {
                // unreachable: decoding always advances (lemma_sdec_value_bounds)
                Err((ParseErrorKind::InvalidTag, pos))
            },
            Err(e) => Err(e),
        }
    }
}

/// Decoding of dictionary pairs up to and including the closing `e`.
/// A key that is not a byte string is a decode error, not silently dropped.
pub open spec fn sdec_pairs(s: Seq<u8>, pos: int) -> Result<
    (Seq<(Seq<u8>, BValue)>, int),
    (ParseErrorKind, int),
>
    decreases s.len() - pos, 1int,
{
    if pos < 0 || pos >= s.len() {
        Err((ParseErrorKind::UnexpectedEnd, pos))
    } else if s[pos] == 101 {
        Ok((Seq::empty(), pos + 1))
    } else if !is_bdigit(s[pos]) {
        Err((ParseErrorKind::NonStringDictKey, pos))
    } else {
        match sdec_str(s, pos) {
            Ok((key, kend)) => if pos < kend <= s.len() {
                match sdec_value(s, kend) {
                    Ok((v, vend)) => if kend < vend <= s.len() {
                        match sdec_pairs(s, vend) {
                            Ok((rest, end)) => Ok((seq![(key, v)] + rest, end)),
                            Err(e) => Err(e),
                        }
                    } else {
                        // unreachable: decoding always advances
                        Err((ParseErrorKind::InvalidTag, kend))
                    },
                    Err(e) => Err(e),
                }
            } else {
                // unreachable: decoding always advances
                Err((ParseErrorKind::InvalidTag, pos))
            },
            Err(e) => Err(e),
        }
    }
}

/// Decoding of a whole buffer: one value starting at offset 0.
pub open spec fn sdecode(s: Seq<u8>) -> Result<(BValue, int), (ParseErrorKind, int)> {
    sdec_value(s, 0)
}

/// A node is well-spanned with respect to a buffer when its recorded span
/// decodes to exactly its own value, recursively for all children.
pub open spec fn well_spanned(v: BencodeValue, s: Seq<u8>) -> bool
    decreases v,
{
    &&& sdec_value(s, v.start() as int) == Ok::<(BValue, int), (ParseErrorKind, int)>(
        (v@, v.end_pos() as int),
    )
    &&& match v {
        BencodeValue::List { items, start, end } => {
            &&& forall|i: int| 0 <= i < items@.len() ==> well_spanned(#[trigger] items@[i], s)
            &&& span_chain(items@, start + 1, end - 1)
        },
        BencodeValue::Dict { pairs, start, end } => {
            &&& forall|i: int| 0 <= i < pairs@.len() ==> well_spanned((#[trigger] pairs@[i]).1, s)
            &&& pair_span_chain(pairs@, s, start + 1, end - 1)
        },
        _ => true,
    }
}

/// Sibling spans chain left to right without gaps: the first node starts at
/// `from`, each next one starts where the previous ended, and the last one
/// ends at `to`. Together with each node's own decodability this is the
/// span invariant: offsets are monotonic, siblings do not overlap, and a
/// parent's span strictly contains every child's.
pub open spec fn span_chain(items: Seq<BencodeValue>, from: int, to: int) -> bool
    decreases items,
{
    if items.len() == 0 {
        from == to
    } else {
        items[0].start() == from && span_chain(items.drop_first(), items[0].end_pos() as int, to)
    }
}

/// Dictionary pair spans chain left to right without gaps: each key string
/// is decoded at the position where the previous pair ended, and its value
/// starts right after the key.
pub open spec fn pair_span_chain(
    pairs: Seq<(Vec<u8>, BencodeValue)>,
    s: Seq<u8>,
    from: int,
    to: int,
) -> bool
    decreases pairs,
{
    if pairs.len() == 0 {
        from == to
    } else {
        &&& sdec_str(s, from) == Ok::<(Seq<u8>, int), (ParseErrorKind, int)>(
            (pairs[0].0@, pairs[0].1.start() as int),
        )
        &&& pair_span_chain(pairs.drop_first(), s, pairs[0].1.end_pos() as int, to)
    }
}

/// Appending a node that starts where the chain ended extends the chain.
proof fn lemma_span_chain_snoc(items: Seq<BencodeValue>, node: BencodeValue, from: int, mid: int)
    requires
        span_chain(items, from, mid),
        node.start() == mid,
    ensures
        span_chain(items.push(node), from, node.end_pos() as int),
    decreases items,
{
    if items.len() == 0 {
        assert(items.push(node)[0] == node);
        assert(items.push(node).drop_first() =~= Seq::<BencodeValue>::empty());
        assert(span_chain(
            Seq::<BencodeValue>::empty(),
            node.end_pos() as int,
            node.end_pos() as int,
        ));
    } else {
        lemma_span_chain_snoc(items.drop_first(), node, items[0].end_pos() as int, mid);
        assert(items.push(node)[0] == items[0]);
        assert(items.push(node).drop_first() =~= items.drop_first().push(node));
    }
}

/// Appending a pair whose key is decoded where the chain ended extends the
/// chain.
proof fn lemma_pair_span_chain_snoc(
    pairs: Seq<(Vec<u8>, BencodeValue)>,
    entry: (Vec<u8>, BencodeValue),
    s: Seq<u8>,
    from: int,
    mid: int,
)
    requires
        pair_span_chain(pairs, s, from, mid),
        sdec_str(s, mid) == Ok::<(Seq<u8>, int), (ParseErrorKind, int)>(
            (entry.0@, entry.1.start() as int),
        ),
    ensures
        pair_span_chain(pairs.push(entry), s, from, entry.1.end_pos() as int),
    decreases pairs,
{
    if pairs.len() == 0 {
        assert(pairs.push(entry)[0] == entry);
        assert(pairs.push(entry).drop_first() =~= Seq::<(Vec<u8>, BencodeValue)>::empty());
        assert(pair_span_chain(
            Seq::<(Vec<u8>, BencodeValue)>::empty(),
            s,
            entry.1.end_pos() as int,
            entry.1.end_pos() as int,
        ));
    } else {
        lemma_pair_span_chain_snoc(pairs.drop_first(), entry, s, pairs[0].1.end_pos() as int, mid);
        assert(pairs.push(entry)[0] == pairs[0]);
        assert(pairs.push(entry).drop_first() =~= pairs.drop_first().push(entry));
    }
}

/// Everything strictly before `digits_end(s, pos)` is a digit, and the
/// position itself (if inside the buffer) is not.
pub proof fn lemma_digits_end(s: Seq<u8>, pos: int)
    requires
        0 <= pos <= s.len(),
    ensures
        pos <= digits_end(s, pos) <= s.len(),
        forall|i: int| pos <= i < digits_end(s, pos) ==> is_bdigit(#[trigger] s[i]),
        digits_end(s, pos) < s.len() ==> !is_bdigit(s[digits_end(s, pos)]),
    decreases s.len() - pos,
{
    if pos < s.len() && is_bdigit(s[pos]) {
        lemma_digits_end(s, pos + 1);
    }
}

/// The value of a digit run is non-negative.
pub proof fn lemma_dec_value_nonneg(s: Seq<u8>, start: int, end: int)
    requires
        forall|i: int| start <= i < end ==> is_bdigit(#[trigger] s[i]),
    ensures
        dec_value(s, start, end) >= 0,
    decreases end - start,
{
    if start < end {
        lemma_dec_value_nonneg(s, start, end - 1);
    }
}

/// A successfully decoded string ends after its start and inside the buffer.
pub proof fn lemma_sdec_str_bounds(s: Seq<u8>, pos: int)
    requires
        0 <= pos <= s.len(),
    ensures
        sdec_str(s, pos) matches Ok(r) ==> pos < r.1 <= s.len(),
{
    lemma_digits_end(s, pos);
    let dend = digits_end(s, pos);
    if dend < s.len() && s[dend] == 58 {
        lemma_dec_value_nonneg(s, pos, dend);
    }
}

/// A successfully decoded integer ends after its start and inside the buffer.
pub proof fn lemma_sdec_int_bounds(s: Seq<u8>, pos: int)
    requires
        0 <= pos < s.len(),
    ensures
        sdec_int(s, pos) matches Ok(r) ==> pos < r.1 <= s.len(),
{
    let q = pos + 1;
    if q < s.len() {
        let r = if s[q] == 45 { q + 1 } else { q };
        lemma_digits_end(s, r);
    }
}

/// A successfully decoded value ends after its start and inside the buffer.
pub proof fn lemma_sdec_value_bounds(s: Seq<u8>, pos: int)
    ensures
        sdec_value(s, pos) matches Ok(r) ==> pos < r.1 <= s.len(),
    decreases s.len() - pos, 0int,
{
    if 0 <= pos < s.len() {
        if s[pos] == 105 {
            lemma_sdec_int_bounds(s, pos);
        } else if is_bdigit(s[pos]) {
            lemma_sdec_str_bounds(s, pos);
        } else if s[pos] == 108 {
            lemma_sdec_items_bounds(s, pos + 1);
        } else if s[pos] == 100 {
            lemma_sdec_pairs_bounds(s, pos + 1);
        }
    }
}

/// Successfully decoded list elements end after their start, inside the buffer.
pub proof fn lemma_sdec_items_bounds(s: Seq<u8>, pos: int)
    ensures
        sdec_items(s, pos) matches Ok(r) ==> pos < r.1 <= s.len(),
    decreases s.len() - pos, 1int,
{
    if 0 <= pos < s.len() && s[pos] != 101 {
        lemma_sdec_value_bounds(s, pos);
        match sdec_value(s, pos) {
            Ok((v, vend)) => {
                if pos < vend <= s.len() {
                    lemma_sdec_items_bounds(s, vend);
                }
            },
            Err(_) => {},
        }
    }
}

/// Successfully decoded dictionary pairs end after their start, inside the buffer.
pub proof fn lemma_sdec_pairs_bounds(s: Seq<u8>, pos: int)
    ensures
        sdec_pairs(s, pos) matches Ok(r) ==> pos < r.1 <= s.len(),
    decreases s.len() - pos, 1int,
{
    if 0 <= pos < s.len() && s[pos] != 101 && is_bdigit(s[pos]) {
        lemma_sdec_str_bounds(s, pos);
        match sdec_str(s, pos) {
            Ok((key, kend)) => {
                if pos < kend <= s.len() {
                    lemma_sdec_value_bounds(s, kend);
                    match sdec_value(s, kend) {
                        Ok((v, vend)) => {
                            if kend < vend <= s.len() {
                                lemma_sdec_pairs_bounds(s, vend);
                            }
                        },
                        Err(_) => {},
                    }
                }
            },
            Err(_) => {},
        }
    }
}

/// Scans the digit run starting at `from` while accumulating its value,
/// capped at `bound`. Returns the end of the run, the accumulated value and
/// whether the value exceeded `bound`.
fn scan_digits(data: &[u8], from: usize, bound: u64) -> (res: (usize, u64, bool))
    requires
        from <= data@.len(),
        bound >= 9,
    ensures
        res.0 as int == digits_end(data@, from as int),
        from <= res.0 <= data@.len(),
        !res.2 ==> res.1 as int == dec_value(data@, from as int, res.0 as int) && res.1 <= bound,
        res.2 ==> dec_value(data@, from as int, res.0 as int) > bound,
{
    let ghost s = data@;
    let mut i = from;
    let mut acc: u64 = 0;
    let mut over = false;
    loop
        invariant
            from <= i <= data@.len(),
            s == data@,
            bound >= 9,
            digits_end(s, from as int) == digits_end(s, i as int),
            !over ==> acc as int == dec_value(s, from as int, i as int) && acc <= bound,
            over ==> dec_value(s, from as int, i as int) > bound,
        ensures
            i as int == digits_end(s, from as int),
            from <= i <= data@.len(),
            !over ==> acc as int == dec_value(s, from as int, i as int) && acc <= bound,
            over ==> dec_value(s, from as int, i as int) > bound,
        decreases data@.len() - i,
    {
        if i >= data.len() {
            break;
        }
        let b = data[i];
        if b < 48 || b > 57 {
            break;
        }
        let d = (b - 48) as u64;
        proof {
            assert(dec_value(s, from as int, i + 1) == dec_value(s, from as int, i as int) * 10
                + (s[i as int] - 48));
        }
        if over {
            proof {
                let pv = dec_value(s, from as int, i as int);
                assert(pv * 10 + (s[i as int] - 48) >= pv) by (nonlinear_arith)
                    requires
                        pv > 0,
                        48 <= s[i as int],
                ;
            }
        } else if acc > (bound - d) / 10 {
            proof {
                let bd = (bound - d) as int;
                assert(bd == 10 * (bd / 10) + bd % 10 && 0 <= bd % 10 < 10);
                assert(acc * 10 + d > bound);
            }
            over = true;
        } else {
            proof {
                let bd = (bound - d) as int;
                assert(bd == 10 * (bd / 10) + bd % 10 && 0 <= bd % 10 < 10);
                assert(acc * 10 + d <= bound);
            }
            acc = acc * 10 + d;
        }
        i = i + 1;
    }
    (i, acc, over)
}

/// Decodes `i<digits>e` starting at the `i` at offset `pos`, returning the
/// value and the exclusive end offset, exactly as `sdec_int` describes.
fn decode_int(data: &[u8], pos: usize) -> (res: Result<(i64, usize), ParseError>)
    requires
        pos < data@.len(),
        data@[pos as int] == 105,
    ensures
        res matches Ok(r) ==> sdec_int(data@, pos as int) == Ok::<(int, int), (ParseErrorKind, int)>(
            (r.0 as int, r.1 as int),
        ) && pos < r.1 <= data@.len(),
        res matches Err(e) ==> sdec_int(data@, pos as int) == Err::<
            (int, int),
            (ParseErrorKind, int),
        >((e.kind, e.offset as int)),
{
    let ghost s = data@;
    let n = data.len();
    let q = pos + 1;
    if q >= n {
        return Err(ParseError { kind: ParseErrorKind::UnexpectedEnd, offset: q });
    }
    let neg = data[q] == 45;
    let r = if neg {
        q + 1
    } else {
        q
    };
    let bound: u64 = if neg {
        9223372036854775808
    } else {
        9223372036854775807
    };
    let (dend, acc, over) = scan_digits(data, r, bound);
    if dend >= data.len() {
        return Err(ParseError { kind: ParseErrorKind::UnexpectedEnd, offset: dend });
    }
    if dend == r {
        return Err(ParseError { kind: ParseErrorKind::InvalidInteger, offset: dend });
    }
    if data[dend] != 101 {
        return Err(ParseError { kind: ParseErrorKind::InvalidInteger, offset: dend });
    }
    if data[r] == 48 && (neg || dend > r + 1) {
        return Err(ParseError { kind: ParseErrorKind::InvalidInteger, offset: r });
    }
    if over {
        return Err(ParseError { kind: ParseErrorKind::InvalidInteger, offset: r });
    }
    if neg {
        let value: i64 = if acc == 9223372036854775808 {
            i64::MIN
        } else {
            -(acc as i64)
        };
        Ok((value, dend + 1))
    } else {
        Ok((acc as i64, dend + 1))
    }
}

/// Decodes `<digits>:<bytes>` starting at the first digit at offset `pos`,
/// returning the contents and the exclusive end offset, exactly as
/// `sdec_str` describes.
fn decode_str(data: &[u8], pos: usize) -> (res: Result<(Vec<u8>, usize), ParseError>)
    requires
        pos < data@.len(),
        is_bdigit(data@[pos as int]),
    ensures
        res matches Ok(r) ==> sdec_str(data@, pos as int) == Ok::<
            (Seq<u8>, int),
            (ParseErrorKind, int),
        >((r.0@, r.1 as int)) && pos < r.1 <= data@.len(),
        res matches Err(e) ==> sdec_str(data@, pos as int) == Err::<
            (Seq<u8>, int),
            (ParseErrorKind, int),
        >((e.kind, e.offset as int)),
{
    let ghost s = data@;
    let (dend, acc, over) = scan_digits(data, pos, u64::MAX);
    if dend >= data.len() {
        return Err(ParseError { kind: ParseErrorKind::UnexpectedEnd, offset: dend });
    }
    if data[dend] != 58 {
        return Err(ParseError { kind: ParseErrorKind::InvalidLength, offset: dend });
    }
    let body = dend + 1;
    proof {
        lemma_digits_end(s, pos as int);
        lemma_dec_value_nonneg(s, pos as int, dend as int);
    }
    if over {
        // the declared length alone already exceeds any buffer
        return Err(ParseError { kind: ParseErrorKind::InvalidLength, offset: pos });
    }
    if acc > (data.len() - body) as u64 {
        return Err(ParseError { kind: ParseErrorKind::InvalidLength, offset: pos });
    }
    let len = acc as usize;
    let bytes = vstd::slice::slice_to_vec(vstd::slice::slice_subrange(data, body, body + len));
    Ok((bytes, body + len))
}

/// Decodes one bencode value starting at `pos`, returning the node (with its
/// span recorded) and the exclusive end offset, exactly as `sdec_value`
/// describes.
fn decode_value(data: &[u8], pos: usize) -> (res: Result<(BencodeValue, usize), ParseError>)
    requires
        pos <= data@.len(),
    ensures
        res matches Ok(r) ==> {
            &&& sdec_value(data@, pos as int) == Ok::<(BValue, int), (ParseErrorKind, int)>(
                (r.0@, r.1 as int),
            )
            &&& r.0.start() == pos
            &&& r.0.end_pos() == r.1
            &&& pos < r.1 <= data@.len()
            &&& well_spanned(r.0, data@)
        },
        res matches Err(e) ==> sdec_value(data@, pos as int) == Err::<
            (BValue, int),
            (ParseErrorKind, int),
        >((e.kind, e.offset as int)),
    decreases data@.len() - pos, 0int,
{
    if pos >= data.len() {
        return Err(ParseError { kind: ParseErrorKind::UnexpectedEnd, offset: pos });
    }
    let b = data[pos];
    if b == 105 {
        match decode_int(data, pos) {
            Ok((value, end)) => Ok((BencodeValue::Integer { value, start: pos, end }, end)),
            Err(e) => Err(e),
        }
    } else if 48 <= b && b <= 57 {
        match decode_str(data, pos) {
            Ok((bytes, end)) => Ok((BencodeValue::Str { bytes, start: pos, end }, end)),
            Err(e) => Err(e),
        }
    } else if b == 108 {
        match decode_items(data, pos + 1) {
            Ok((items, end)) => Ok((BencodeValue::List { items, start: pos, end }, end)),
            Err(e) => Err(e),
        }
    } else if b == 100 {
        match decode_pairs(data, pos + 1) {
            Ok((pairs, end)) => Ok((BencodeValue::Dict { pairs, start: pos, end }, end)),
            Err(e) => Err(e),
        }
    } else {
        Err(ParseError { kind: ParseErrorKind::InvalidTag, offset: pos })
    }
}

/// Decodes list elements up to and including the closing `e`, exactly as
/// `sdec_items` describes.
fn decode_items(data: &[u8], pos: usize) -> (res: Result<(Vec<BencodeValue>, usize), ParseError>)
    requires
        pos <= data@.len(),
    ensures
        res matches Ok(r) ==> {
            &&& sdec_items(data@, pos as int) == Ok::<(Seq<BValue>, int), (ParseErrorKind, int)>(
                (views_of(r.0@), r.1 as int),
            )
            &&& forall|i: int| 0 <= i < r.0@.len() ==> well_spanned(#[trigger] r.0@[i], data@)
            &&& span_chain(r.0@, pos as int, r.1 - 1)
            &&& pos < r.1 <= data@.len()
        },
        res matches Err(e) ==> sdec_items(data@, pos as int) == Err::<
            (Seq<BValue>, int),
            (ParseErrorKind, int),
        >((e.kind, e.offset as int)),
    decreases data@.len() - pos, 1int,
{
    let ghost s = data@;
    let mut items: Vec<BencodeValue> = Vec::new();
    let mut cur = pos;
    proof {
        assert(views_of(items@) =~= Seq::<BValue>::empty());
        assert(span_chain(items@, pos as int, pos as int));
    }
    loop
        invariant
            pos <= cur <= data@.len(),
            s == data@,
            forall|k: int| 0 <= k < items@.len() ==> well_spanned(#[trigger] items@[k], data@),
            span_chain(items@, pos as int, cur as int),
            sdec_items(s, pos as int) == (match sdec_items(s, cur as int) {
                Ok(r2) => Ok::<(Seq<BValue>, int), (ParseErrorKind, int)>(
                    (views_of(items@) + r2.0, r2.1),
                ),
                Err(e2) => Err::<(Seq<BValue>, int), (ParseErrorKind, int)>(e2),
            }),
        decreases data@.len() - cur,
    {
        if cur >= data.len() {
            return Err(ParseError { kind: ParseErrorKind::UnexpectedEnd, offset: cur });
        }
        if data[cur] == 101 {
            proof {
                assert(views_of(items@) + Seq::<BValue>::empty() =~= views_of(items@));
            }
            return Ok((items, cur + 1));
        }
        match decode_value(data, cur) {
            Err(e) => {
                return Err(e);
            },
            Ok((node, nend)) => {
                proof {
                    lemma_views_of(items@);
                    lemma_span_chain_snoc(items@, node, pos as int, cur as int);
                    assert(items@.push(node).drop_last() =~= items@);
                    assert(views_of(items@.push(node)) == views_of(items@).push(view_of(node)));
                    let after = sdec_items(s, nend as int);
                    match after {
                        Ok(r2) => {
                            assert(views_of(items@) + (seq![node@] + r2.0) =~= views_of(
                                items@.push(node),
                            ) + r2.0);
                        },
                        Err(_) => {},
                    }
                }
                items.push(node);
                cur = nend;
            },
        }
    }
}

/// Decodes dictionary pairs up to and including the closing `e`, exactly as
/// `sdec_pairs` describes.
fn decode_pairs(data: &[u8], pos: usize) -> (res: Result<
    (Vec<(Vec<u8>, BencodeValue)>, usize),
    ParseError,
>)
    requires
        pos <= data@.len(),
    ensures
        res matches Ok(r) ==> {
            &&& sdec_pairs(data@, pos as int) == Ok::<
                (Seq<(Seq<u8>, BValue)>, int),
                (ParseErrorKind, int),
            >((pair_views_of(r.0@), r.1 as int))
            &&& forall|i: int| 0 <= i < r.0@.len() ==> well_spanned((#[trigger] r.0@[i]).1, data@)
            &&& pair_span_chain(r.0@, data@, pos as int, r.1 - 1)
            &&& pos < r.1 <= data@.len()
        },
        res matches Err(e) ==> sdec_pairs(data@, pos as int) == Err::<
            (Seq<(Seq<u8>, BValue)>, int),
            (ParseErrorKind, int),
        >((e.kind, e.offset as int)),
    decreases data@.len() - pos, 1int,
{
    let ghost s = data@;
    let mut pairs: Vec<(Vec<u8>, BencodeValue)> = Vec::new();
    let mut cur = pos;
    proof {
        assert(pair_views_of(pairs@) =~= Seq::<(Seq<u8>, BValue)>::empty());
        assert(pair_span_chain(pairs@, s, pos as int, pos as int));
    }
    loop
        invariant
            pos <= cur <= data@.len(),
            s == data@,
            forall|k: int| 0 <= k < pairs@.len() ==> well_spanned((#[trigger] pairs@[k]).1, data@),
            pair_span_chain(pairs@, s, pos as int, cur as int),
            sdec_pairs(s, pos as int) == (match sdec_pairs(s, cur as int) {
                Ok(r2) => Ok::<(Seq<(Seq<u8>, BValue)>, int), (ParseErrorKind, int)>(
                    (pair_views_of(pairs@) + r2.0, r2.1),
                ),
                Err(e2) => Err::<(Seq<(Seq<u8>, BValue)>, int), (ParseErrorKind, int)>(e2),
            }),
        decreases data@.len() - cur,
    {
        if cur >= data.len() {
            return Err(ParseError { kind: ParseErrorKind::UnexpectedEnd, offset: cur });
        }
        let b = data[cur];
        if b == 101 {
            proof {
                assert(pair_views_of(pairs@) + Seq::<(Seq<u8>, BValue)>::empty() =~= pair_views_of(
                    pairs@,
                ));
            }
            return Ok((pairs, cur + 1));
        }
        if b < 48 || b > 57 {
            return Err(ParseError { kind: ParseErrorKind::NonStringDictKey, offset: cur });
        }
        let (key, kend) = match decode_str(data, cur) {
            Err(e) => {
                return Err(e);
            },
            Ok(p) => p,
        };
        match decode_value(data, kend) {
            Err(e) => {
                return Err(e);
            },
            Ok((node, vend)) => {
                proof {
                    lemma_pair_views_of(pairs@);
                    let ghost entry = (key, node);
                    lemma_pair_span_chain_snoc(pairs@, entry, s, pos as int, cur as int);
                    assert(pairs@.push(entry).drop_last() =~= pairs@);
                    assert(pair_views_of(pairs@.push(entry)) == pair_views_of(pairs@).push(
                        (key@, view_of(node)),
                    ));
                    let after = sdec_pairs(s, vend as int);
                    match after {
                        Ok(r2) => {
                            assert(pair_views_of(pairs@) + (seq![(key@, node@)] + r2.0)
                                =~= pair_views_of(pairs@.push(entry)) + r2.0);
                        },
                        Err(_) => {},
                    }
                }
                pairs.push((key, node));
                cur = vend;
            },
        }
    }
}

/// A forward-only bencode parser over a borrowed buffer.
///
/// `pos` is the offset of the next byte to be consumed; `parse` decodes one
/// value starting there and advances `pos` past it.
pub struct BencodeParser<'a> {
    pub data: &'a [u8],
    pub pos: usize,
}

impl<'a> BencodeParser<'a> {
    /// A parser positioned at the start of `data`.
    pub fn new(data: &'a [u8]) -> (r: Self)
        ensures
            r.data@ == data@,
            r.pos == 0,
    {
        BencodeParser { data, pos: 0 }
    }

    /// Decodes one value starting at the current position and advances past
    /// it. The result is exactly what `sdec_value` describes; on success the
    /// returned node is well-spanned with respect to the buffer.
    pub fn parse(&mut self) -> (res: Result<BencodeValue, ParseError>)
        requires
            old(self).pos <= old(self).data@.len(),
        ensures
            final(self).data == old(self).data,
            res matches Ok(node) ==> {
                &&& sdec_value(old(self).data@, old(self).pos as int) == Ok::<
                    (BValue, int),
                    (ParseErrorKind, int),
                >((node@, final(self).pos as int))
                &&& well_spanned(node, old(self).data@)
                &&& node.start() == old(self).pos
                &&& node.end_pos() == final(self).pos
                &&& old(self).pos < final(self).pos <= old(self).data@.len()
            },
            res matches Err(e) ==> sdec_value(old(self).data@, old(self).pos as int) == Err::<
                (BValue, int),
                (ParseErrorKind, int),
            >((e.kind, e.offset as int)) && final(self).pos == old(self).pos,
    {
        match decode_value(self.data, self.pos) {
            Ok((node, end)) => {
                self.pos = end;
                Ok(node)
            },
            Err(e) => Err(e),
        }
    }
}

/// The decimal digit bytes of `n`, most significant first, no leading zeros.
pub open spec fn digits_of(n: nat) -> Seq<u8>
    decreases n,
{
    if n < 10 {
        seq![(48 + n) as u8]
    } else {
        digits_of(n / 10).push((48 + n % 10) as u8)
    }
}

/// The bencode encoding of a byte string: `<decimal length>:<bytes>`.
pub open spec fn str_bytes(b: Seq<u8>) -> Seq<u8> {
    digits_of(b.len()) + seq![58u8] + b
}

/// The digit bytes of an integer, with a leading `-` when negative.
pub open spec fn int_bytes(i: int) -> Seq<u8> {
    if i < 0 {
        seq![45u8] + digits_of((-i) as nat)
    } else {
        digits_of(i as nat)
    }
}

/// The canonical bencode encoding of a value.
pub open spec fn sencode(v: BValue) -> Seq<u8>
    decreases v,
{
    match v {
        BValue::Str(b) => str_bytes(b),
        BValue::Integer(i) => seq![105u8] + int_bytes(i) + seq![101u8],
        BValue::List(items) => seq![108u8] + sencode_items(items) + seq![101u8],
        BValue::Dict(prs) => seq![100u8] + sencode_pairs(prs) + seq![101u8],
    }
}

/// The concatenated encodings of list elements.
pub open spec fn sencode_items(s: Seq<BValue>) -> Seq<u8>
    decreases s,
{
    if s.len() == 0 {
        Seq::empty()
    } else {
        sencode(s[0]) + sencode_items(s.drop_first())
    }
}

/// The concatenated encodings of dictionary pairs.
pub open spec fn sencode_pairs(s: Seq<(Seq<u8>, BValue)>) -> Seq<u8>
    decreases s,
{
    if s.len() == 0 {
        Seq::empty()
    } else {
        str_bytes(s[0].0) + sencode(s[0].1) + sencode_pairs(s.drop_first())
    }
}

/// A tree the encoder and decoder can round-trip: every integer fits in
/// 64 signed bits.
pub open spec fn encodable(v: BValue) -> bool
    decreases v,
{
    match v {
        BValue::Str(_) => true,
        BValue::Integer(i) => i64::MIN <= i <= i64::MAX,
        BValue::List(items) => forall|i: int| 0 <= i < items.len() ==> encodable(#[trigger] items[i]),
        BValue::Dict(prs) => forall|i: int| 0 <= i < prs.len() ==> encodable((#[trigger] prs[i]).1),
    }
}

/// `digits_of` produces at least one byte, all digits, with a leading zero
/// only for the number zero itself.
pub proof fn lemma_digits_of_digits(n: nat)
    ensures
        digits_of(n).len() >= 1,
        forall|i: int| 0 <= i < digits_of(n).len() ==> is_bdigit(#[trigger] digits_of(n)[i]),
        digits_of(n)[0] == 48 ==> n == 0,
        n < 10 <==> digits_of(n).len() == 1,
    decreases n,
{
    if n >= 10 {
        lemma_digits_of_digits(n / 10);
    }
}

/// A digit run of known extent pins down `digits_end`.
pub proof fn lemma_digits_end_exact(s: Seq<u8>, pos: int, k: int)
    requires
        0 <= pos,
        0 <= k,
        pos + k < s.len(),
        forall|j: int| 0 <= j < k ==> is_bdigit(#[trigger] s[pos + j]),
        !is_bdigit(s[pos + k]),
    ensures
        digits_end(s, pos) == pos + k,
    decreases k,
{
    if k == 0 {
    } else {
        assert(s[pos] == s[pos + 0]);
        assert(is_bdigit(s[pos]));
        assert forall|j: int| 0 <= j < k - 1 implies is_bdigit(#[trigger] s[pos + 1 + j]) by {
            assert(s[pos + 1 + j] == s[pos + (j + 1)]);
        }
        assert(s[(pos + 1) + (k - 1)] == s[pos + k]);
        lemma_digits_end_exact(s, pos + 1, k - 1);
    }
}

/// Reading back the digits of `n` yields `n`.
pub proof fn lemma_dec_value_of_digits(n: nat, s: Seq<u8>, pos: int)
    requires
        0 <= pos,
        pos + digits_of(n).len() <= s.len(),
        s.subrange(pos, pos + digits_of(n).len()) == digits_of(n),
    ensures
        dec_value(s, pos, pos + digits_of(n).len()) == n,
    decreases n,
{
    let d = digits_of(n);
    if n < 10 {
        assert(s[pos] == d[0]);
        assert(dec_value(s, pos, pos) == 0);
    } else {
        let dp = digits_of(n / 10);
        assert(s.subrange(pos, pos + dp.len()) =~= dp) by {
            assert forall|j: int| 0 <= j < dp.len() implies s.subrange(pos, pos + dp.len())[j]
                == dp[j] by {
                assert(s.subrange(pos, pos + d.len())[j] == d[j]);
                assert(d[j] == dp[j]);
            }
        }
        lemma_dec_value_of_digits(n / 10, s, pos);
        assert(s.subrange(pos, pos + d.len())[d.len() - 1] == d[d.len() - 1]);
        assert(s[pos + dp.len()] == d[d.len() - 1]);
        assert(d[d.len() - 1] == (48 + n % 10) as u8);
        assert(dec_value(s, pos, pos + d.len()) == dec_value(s, pos, pos + dp.len()) * 10 + (s[pos
            + dp.len()] - 48));
        assert(n == 10 * (n / 10) + n % 10);
    }
}

/// The first byte of an encoding identifies the branch the decoder takes;
/// in particular it is never the terminator `e`.
pub proof fn lemma_sencode_shape(v: BValue)
    ensures
        sencode(v).len() >= 2,
        v matches BValue::Integer(i) ==> sencode(v)[0] == 105,
        v matches BValue::Str(b) ==> is_bdigit(sencode(v)[0]),
        v matches BValue::List(items) ==> sencode(v)[0] == 108,
        v matches BValue::Dict(prs) ==> sencode(v)[0] == 100,
        sencode(v)[0] != 101,
{
    match v {
        BValue::Str(b) => {
            lemma_digits_of_digits(b.len());
            assert(sencode(v)[0] == digits_of(b.len())[0]);
        },
        BValue::Integer(i) => {},
        BValue::List(items) => {},
        BValue::Dict(prs) => {},
    }
}

/// Encoding distributes over concatenation of element sequences.
pub proof fn lemma_sencode_items_concat(a: Seq<BValue>, b: Seq<BValue>)
    ensures
        sencode_items(a + b) == sencode_items(a) + sencode_items(b),
    decreases a.len(),
{
    if a.len() == 0 {
        assert(a + b =~= b);
        assert(sencode_items(a) + sencode_items(b) =~= sencode_items(b));
    } else {
        assert((a + b)[0] == a[0]);
        assert((a + b).drop_first() =~= a.drop_first() + b);
        assert((a + b).len() != 0);
        lemma_sencode_items_concat(a.drop_first(), b);
        assert(sencode(a[0]) + (sencode_items(a.drop_first()) + sencode_items(b)) =~= (sencode(
            a[0],
        ) + sencode_items(a.drop_first())) + sencode_items(b));
    }
}

/// Encoding distributes over concatenation of pair sequences.
pub proof fn lemma_sencode_pairs_concat(a: Seq<(Seq<u8>, BValue)>, b: Seq<(Seq<u8>, BValue)>)
    ensures
        sencode_pairs(a + b) == sencode_pairs(a) + sencode_pairs(b),
    decreases a.len(),
{
    if a.len() == 0 {
        assert(a + b =~= b);
        assert(sencode_pairs(a) + sencode_pairs(b) =~= sencode_pairs(b));
    } else {
        assert((a + b)[0] == a[0]);
        assert((a + b).drop_first() =~= a.drop_first() + b);
        assert((a + b).len() != 0);
        lemma_sencode_pairs_concat(a.drop_first(), b);
        assert(str_bytes(a[0].0) + sencode(a[0].1) + (sencode_pairs(a.drop_first())
            + sencode_pairs(b)) =~= (str_bytes(a[0].0) + sencode(a[0].1) + sencode_pairs(
            a.drop_first(),
        )) + sencode_pairs(b));
    }
}

/// An embedded string encoding decodes to the original string.
pub proof fn lemma_rt_str(b: Seq<u8>, s: Seq<u8>, pos: int)
    requires
        0 <= pos,
        pos + str_bytes(b).len() <= s.len(),
        s.subrange(pos, pos + str_bytes(b).len()) == str_bytes(b),
    ensures
        is_bdigit(s[pos]),
        sdec_str(s, pos) == Ok::<(Seq<u8>, int), (ParseErrorKind, int)>(
            (b, pos + str_bytes(b).len()),
        ),
{
    let d = digits_of(b.len());
    let e = str_bytes(b);
    lemma_digits_of_digits(b.len());
    assert forall|j: int| 0 <= j < e.len() implies s[pos + j] == e[j] by {
        assert(s.subrange(pos, pos + e.len())[j] == e[j]);
    }
    assert forall|j: int| 0 <= j < d.len() implies is_bdigit(#[trigger] s[pos + j]) by {
        assert(e[j] == d[j]);
    }
    assert(e[d.len() as int] == 58);
    assert(s[pos + d.len()] == 58);
    lemma_digits_end_exact(s, pos, d.len() as int);
    assert(s.subrange(pos, pos + d.len()) =~= d) by {
        assert forall|j: int| 0 <= j < d.len() implies s.subrange(pos, pos + d.len())[j]
            == d[j] by {
            assert(s[pos + j] == e[j]);
            assert(e[j] == d[j]);
        }
    }
    lemma_dec_value_of_digits(b.len(), s, pos);
    let body = pos + d.len() + 1;
    assert(s.subrange(body, body + b.len()) =~= b) by {
        assert forall|j: int| 0 <= j < b.len() implies s.subrange(body, body + b.len())[j]
            == b[j] by {
            assert(s[body + j] == e[d.len() + 1 + j]);
            assert(e[d.len() + 1 + j] == b[j]);
        }
    }
}

/// An embedded value encoding decodes to the original value.
pub proof fn lemma_rt_value(v: BValue, s: Seq<u8>, pos: int)
    requires
        encodable(v),
        0 <= pos,
        pos + sencode(v).len() <= s.len(),
        s.subrange(pos, pos + sencode(v).len()) == sencode(v),
    ensures
        sdec_value(s, pos) == Ok::<(BValue, int), (ParseErrorKind, int)>(
            (v, pos + sencode(v).len()),
        ),
    decreases v,
{
    let e = sencode(v);
    lemma_sencode_shape(v);
    assert forall|j: int| 0 <= j < e.len() implies s[pos + j] == e[j] by {
        assert(s.subrange(pos, pos + e.len())[j] == e[j]);
    }
    assert(s[pos + 0] == e[0]);
    match v {
        BValue::Str(b) => {
            lemma_rt_str(b, s, pos);
        },
        BValue::Integer(i) => {
            let m: nat = if i < 0 {
                (-i) as nat
            } else {
                i as nat
            };
            let d = digits_of(m);
            lemma_digits_of_digits(m);
            let neg = i < 0;
            let r: int = if neg {
                pos + 2
            } else {
                pos + 1
            };
            let off: int = if neg {
                2
            } else {
                1
            };
            assert forall|j: int| 0 <= j < d.len() implies is_bdigit(#[trigger] s[r + j]) by {
                assert(s[pos + (off + j)] == e[off + j]);
                assert(e[off + j] == d[j]);
            }
            assert(e[e.len() - 1] == 101);
            assert(s[r + d.len()] == e[off + d.len()]);
            assert(off + d.len() == e.len() - 1);
            lemma_digits_end_exact(s, r, d.len() as int);
            assert(s.subrange(r, r + d.len()) =~= d) by {
                assert forall|j: int| 0 <= j < d.len() implies s.subrange(r, r + d.len())[j]
                    == d[j] by {
                    assert(s[pos + (off + j)] == e[off + j]);
                    assert(e[off + j] == d[j]);
                }
            }
            lemma_dec_value_of_digits(m, s, r);
            if neg {
                assert(s[pos + 1] == e[1]);
                assert(e[1] == 45);
            } else {
                assert(s[pos + 1] == e[1]);
                assert(e[1] == d[0]);
            }
        },
        BValue::List(items) => {
            assert(e[0] == 108);
            let inner = sencode_items(items);
            assert(s.subrange(pos + 1, pos + 1 + inner.len() + 1) =~= inner + seq![101u8]) by {
                assert forall|j: int|
                    0 <= j < inner.len() + 1 implies s.subrange(pos + 1, pos + 1 + inner.len() + 1)[j]
                    == (inner + seq![101u8])[j] by {
                    assert(s[pos + (1 + j)] == e[1 + j]);
                    assert(e[1 + j] == (inner + seq![101u8])[j]);
                }
            }
            lemma_rt_items(items, s, pos + 1);
        },
        BValue::Dict(prs) => {
            assert(e[0] == 100);
            let inner = sencode_pairs(prs);
            assert(s.subrange(pos + 1, pos + 1 + inner.len() + 1) =~= inner + seq![101u8]) by {
                assert forall|j: int|
                    0 <= j < inner.len() + 1 implies s.subrange(pos + 1, pos + 1 + inner.len() + 1)[j]
                    == (inner + seq![101u8])[j] by {
                    assert(s[pos + (1 + j)] == e[1 + j]);
                    assert(e[1 + j] == (inner + seq![101u8])[j]);
                }
            }
            lemma_rt_pairs(prs, s, pos + 1);
        },
    }
}

/// Embedded element encodings followed by `e` decode to the original
/// elements.
pub proof fn lemma_rt_items(items: Seq<BValue>, s: Seq<u8>, pos: int)
    requires
        forall|i: int| 0 <= i < items.len() ==> encodable(#[trigger] items[i]),
        0 <= pos,
        pos + sencode_items(items).len() + 1 <= s.len(),
        s.subrange(pos, pos + sencode_items(items).len() + 1) == sencode_items(items)
            + seq![101u8],
    ensures
        sdec_items(s, pos) == Ok::<(Seq<BValue>, int), (ParseErrorKind, int)>(
            (items, pos + sencode_items(items).len() + 1),
        ),
    decreases items,
{
    let whole = sencode_items(items) + seq![101u8];
    assert forall|j: int| 0 <= j < whole.len() implies s[pos + j] == whole[j] by {
        assert(s.subrange(pos, pos + whole.len())[j] == whole[j]);
    }
    if items.len() == 0 {
        assert(whole =~= seq![101u8]);
        assert(s.subrange(pos, pos + sencode_items(items).len() + 1)[0] == whole[0]);
        assert(s[pos] == 101);
        assert(items =~= Seq::<BValue>::empty());
    } else {
        let v0 = items[0];
        let rest = items.drop_first();
        let e0 = sencode(v0);
        let erest = sencode_items(rest);
        assert(sencode_items(items) == e0 + erest);
        lemma_sencode_shape(v0);
        assert(s[pos + 0] == whole[0]);
        assert(whole[0] == e0[0]);
        assert(s.subrange(pos, pos + e0.len()) =~= e0) by {
            assert forall|j: int| 0 <= j < e0.len() implies s.subrange(pos, pos + e0.len())[j]
                == e0[j] by {
                assert(s[pos + j] == whole[j]);
                assert(whole[j] == e0[j]);
            }
        }
        lemma_rt_value(v0, s, pos);
        let mid = pos + e0.len();
        assert(s.subrange(mid, mid + erest.len() + 1) =~= erest + seq![101u8]) by {
            assert forall|j: int|
                0 <= j < erest.len() + 1 implies s.subrange(mid, mid + erest.len() + 1)[j] == (erest
                + seq![101u8])[j] by {
                assert(s[pos + (e0.len() + j)] == whole[e0.len() + j]);
                assert(whole[e0.len() + j] == (erest + seq![101u8])[j]);
            }
        }
        assert forall|i: int| 0 <= i < rest.len() implies encodable(#[trigger] rest[i]) by {
            assert(rest[i] == items[i + 1]);
        }
        lemma_rt_items(rest, s, mid);
        assert(seq![v0] + rest =~= items);
    }
}

/// Embedded pair encodings followed by `e` decode to the original pairs.
pub proof fn lemma_rt_pairs(prs: Seq<(Seq<u8>, BValue)>, s: Seq<u8>, pos: int)
    requires
        forall|i: int| 0 <= i < prs.len() ==> encodable((#[trigger] prs[i]).1),
        0 <= pos,
        pos + sencode_pairs(prs).len() + 1 <= s.len(),
        s.subrange(pos, pos + sencode_pairs(prs).len() + 1) == sencode_pairs(prs) + seq![101u8],
    ensures
        sdec_pairs(s, pos) == Ok::<(Seq<(Seq<u8>, BValue)>, int), (ParseErrorKind, int)>(
            (prs, pos + sencode_pairs(prs).len() + 1),
        ),
    decreases prs,
{
    let whole = sencode_pairs(prs) + seq![101u8];
    assert forall|j: int| 0 <= j < whole.len() implies s[pos + j] == whole[j] by {
        assert(s.subrange(pos, pos + whole.len())[j] == whole[j]);
    }
    if prs.len() == 0 {
        assert(whole =~= seq![101u8]);
        assert(s.subrange(pos, pos + sencode_pairs(prs).len() + 1)[0] == whole[0]);
        assert(s[pos] == 101);
        assert(prs =~= Seq::<(Seq<u8>, BValue)>::empty());
    } else {
        let key = prs[0].0;
        let val = prs[0].1;
        let rest = prs.drop_first();
        let ek = str_bytes(key);
        let ev = sencode(val);
        let erest = sencode_pairs(rest);
        assert(sencode_pairs(prs) == ek + ev + erest);
        assert(s.subrange(pos, pos + ek.len()) =~= ek) by {
            assert forall|j: int| 0 <= j < ek.len() implies s.subrange(pos, pos + ek.len())[j]
                == ek[j] by {
                assert(s[pos + j] == whole[j]);
                assert(whole[j] == ek[j]);
            }
        }
        lemma_rt_str(key, s, pos);
        let kend = pos + ek.len();
        assert(s.subrange(kend, kend + ev.len()) =~= ev) by {
            assert forall|j: int| 0 <= j < ev.len() implies s.subrange(kend, kend + ev.len())[j]
                == ev[j] by {
                assert(s[pos + (ek.len() + j)] == whole[ek.len() + j]);
                assert(whole[ek.len() + j] == ev[j]);
            }
        }
        assert(encodable((prs[0]).1));
        lemma_rt_value(val, s, kend);
        let vend = kend + ev.len();
        assert(s.subrange(vend, vend + erest.len() + 1) =~= erest + seq![101u8]) by {
            assert forall|j: int|
                0 <= j < erest.len() + 1 implies s.subrange(vend, vend + erest.len() + 1)[j]
                == (erest + seq![101u8])[j] by {
                assert(s[pos + (ek.len() + ev.len() + j)] == whole[ek.len() + ev.len() + j]);
                assert(whole[ek.len() + ev.len() + j] == (erest + seq![101u8])[j]);
            }
        }
        assert forall|i: int| 0 <= i < rest.len() implies encodable((#[trigger] rest[i]).1) by {
            assert(rest[i] == prs[i + 1]);
        }
        lemma_rt_pairs(rest, s, vend);
        assert(seq![(key, val)] + rest =~= prs);
    }
}

/// Law: decoding the canonical encoding of any encodable tree yields exactly
/// that tree back and consumes exactly the encoded bytes.
pub proof fn lemma_round_trip(v: BValue)
    requires
        encodable(v),
    ensures
        sdecode(sencode(v)) == Ok::<(BValue, int), (ParseErrorKind, int)>(
            (v, sencode(v).len() as int),
        ),
{
    lemma_sencode_shape(v);
    assert(sencode(v).subrange(0, sencode(v).len() as int) =~= sencode(v));
    lemma_rt_value(v, sencode(v), 0);
}

/// Appends the decimal digits of `n` to `out`.
fn push_digits(out: &mut Vec<u8>, n: u64)
    ensures
        final(out)@ == old(out)@ + digits_of(n as nat),
    decreases n,
{
    if n < 10 {
        out.push(48 + n as u8);
        assert(out@ =~= old(out)@ + digits_of(n as nat));
    } else {
        push_digits(out, n / 10);
        out.push(48 + (n % 10) as u8);
        assert(out@ =~= old(out)@ + digits_of(n as nat));
    }
}

/// Appends all of `b` to `out`.
fn push_bytes(out: &mut Vec<u8>, b: &Vec<u8>)
    ensures
        final(out)@ == old(out)@ + b@,
{
    let mut i: usize = 0;
    while i < b.len()
        invariant
            i <= b@.len(),
            out@ == old(out)@ + b@.take(i as int),
        decreases b@.len() - i,
    {
        out.push(b[i]);
        assert(b@.take(i + 1) =~= b@.take(i as int).push(b@[i as int]));
        assert(out@ =~= old(out)@ + b@.take(i + 1));
        i = i + 1;
    }
    assert(b@.take(i as int) =~= b@);
}

/// Appends the canonical encoding of `v` to `out`.
#[verifier::loop_isolation(false)]
fn encode_into(v: &BencodeValue, out: &mut Vec<u8>)
    ensures
        final(out)@ == old(out)@ + sencode(v@),
    decreases v,
{
    match v {
        BencodeValue::Str { bytes, .. } => {
            push_digits(out, bytes.len() as u64);
            out.push(58);
            push_bytes(out, bytes);
            assert(out@ =~= old(out)@ + str_bytes(bytes@));
        },
        BencodeValue::Integer { value, .. } => {
            out.push(105);
            if *value < 0 {
                out.push(45);
                let mag: u64 = if *value == i64::MIN {
                    9223372036854775808
                } else {
                    (-*value) as u64
                };
                push_digits(out, mag);
            } else {
                push_digits(out, *value as u64);
            }
            out.push(101);
            assert(out@ =~= old(out)@ + sencode(v@));
        },
        BencodeValue::List { items, .. } => {
            let ghost vitems = views_of(items@);
            proof {
                lemma_views_of(items@);
            }
            out.push(108);
            let ghost base = out@;
            let mut i: usize = 0;
            while i < items.len()
                invariant
                    i <= items@.len(),
                    vitems == views_of(items@),
                    vitems.len() == items@.len(),
                    forall|j: int| 0 <= j < items@.len() ==> vitems[j] == view_of(#[trigger] items@[j]),
                    out@ == base + sencode_items(vitems.take(i as int)),
                decreases items@.len() - i,
            {
                encode_into(&items[i], out);
                proof {
                    let pre = vitems.take(i as int);
                    let one = seq![vitems[i as int]];
                    lemma_sencode_items_concat(pre, one);
                    assert(vitems.take(i + 1) =~= pre + one);
                    assert(one.drop_first() =~= Seq::<BValue>::empty());
                    assert(sencode_items(Seq::<BValue>::empty()) == Seq::<u8>::empty());
                    assert(sencode_items(one) =~= sencode(vitems[i as int]));
                    assert(base + sencode_items(pre) + sencode(vitems[i as int]) =~= base
                        + sencode_items(vitems.take(i + 1)));
                }
                i = i + 1;
            }
            out.push(101);
            proof {
                assert(vitems.take(i as int) =~= vitems);
                assert(out@ =~= old(out)@ + sencode(v@));
            }
        },
        BencodeValue::Dict { pairs, .. } => {
            let ghost vpairs = pair_views_of(pairs@);
            proof {
                lemma_pair_views_of(pairs@);
            }
            out.push(100);
            let ghost base = out@;
            let mut i: usize = 0;
            while i < pairs.len()
                invariant
                    i <= pairs@.len(),
                    vpairs == pair_views_of(pairs@),
                    vpairs.len() == pairs@.len(),
                    forall|j: int|
                        0 <= j < pairs@.len() ==> vpairs[j] == ((#[trigger] pairs@[j]).0@, view_of(
                            pairs@[j].1,
                        )),
                    out@ == base + sencode_pairs(vpairs.take(i as int)),
                decreases pairs@.len() - i,
            {
                let pair = &pairs[i];
                push_digits(out, pair.0.len() as u64);
                out.push(58);
                push_bytes(out, &pair.0);
                encode_into(&pair.1, out);
                proof {
                    let pre = vpairs.take(i as int);
                    let one = seq![vpairs[i as int]];
                    lemma_sencode_pairs_concat(pre, one);
                    assert(vpairs.take(i + 1) =~= pre + one);
                    assert(one.drop_first() =~= Seq::<(Seq<u8>, BValue)>::empty());
                    assert(sencode_pairs(Seq::<(Seq<u8>, BValue)>::empty()) == Seq::<u8>::empty());
                    assert(str_bytes(one[0].0) + sencode(one[0].1) + Seq::<u8>::empty()
                        =~= str_bytes(vpairs[i as int].0) + sencode(vpairs[i as int].1));
                    assert(sencode_pairs(one) =~= str_bytes(vpairs[i as int].0) + sencode(
                        vpairs[i as int].1,
                    ));
                    assert(base + sencode_pairs(pre) + (str_bytes(pair.0@) + sencode(pair.1@))
                        =~= base + sencode_pairs(vpairs.take(i + 1)));
                    assert(out@ =~= base + sencode_pairs(vpairs.take(i + 1)));
                }
                i = i + 1;
            }
            out.push(101);
            proof {
                assert(vpairs.take(i as int) =~= vpairs);
                assert(out@ =~= old(out)@ + sencode(v@));
            }
        },
    }
}

/// The canonical bencode encoding of a decoded tree: the reference encoder
/// whose output `lemma_round_trip` relates back to decoding.
pub fn encode(v: &BencodeValue) -> (out: Vec<u8>)
    ensures
        out@ == sencode(v@),
{
    let mut out: Vec<u8> = Vec::new();
    encode_into(v, &mut out);
    proof {
        assert(Seq::<u8>::empty() + sencode(v@) =~= sencode(v@));
    }
    out
}

/// Byte-vector equality, decided in one pass.
pub fn bytes_eq(a: &Vec<u8>, b: &Vec<u8>) -> (r: bool)
    ensures
        r == (a@ == b@),
{
    if a.len() != b.len() {
        return false;
    }
    let mut i: usize = 0;
    while i < a.len()
        invariant
            a@.len() == b@.len(),
            i <= a@.len(),
            forall|j: int| 0 <= j < i ==> a@[j] == b@[j],
        decreases a@.len() - i,
    {
        if a[i] != b[i] {
            return false;
        }
        i = i + 1;
    }
    proof {
        assert(a@ =~= b@);
    }
    true
}


/// The value stored under `key` in a pair sequence, the last occurrence
/// winning (matching the deterministic last-write-wins reading of
/// duplicate keys).
pub open spec fn pairs_get(prs: Seq<(Vec<u8>, BencodeValue)>, key: Seq<u8>) -> Option<BencodeValue>
    decreases prs,
{
    if prs.len() == 0 {
        None
    } else if prs.last().0@ == key {
        Some(prs.last().1)
    } else {
        pairs_get(prs.drop_last(), key)
    }
}

/// Looks `key` up among decoded dictionary pairs; the last occurrence wins.
pub fn dict_lookup<'x>(pairs: &'x Vec<(Vec<u8>, BencodeValue)>, key: &Vec<u8>) -> (r: Option<
    &'x BencodeValue,
>)
    ensures
        match r {
            Some(node) => pairs_get(pairs@, key@) == Some(*node),
            None => pairs_get(pairs@, key@) is None,
        },
{
    let mut i: usize = pairs.len();
    proof {
        assert(pairs@.take(i as int) =~= pairs@);
    }
    while i > 0
        invariant
            i <= pairs@.len(),
            pairs_get(pairs@, key@) == pairs_get(pairs@.take(i as int), key@),
        decreases i,
    {
        i = i - 1;
        proof {
            assert(pairs@.take(i + 1).last() == pairs@[i as int]);
            assert(pairs@.take(i + 1).drop_last() =~= pairs@.take(i as int));
        }
        if bytes_eq(&pairs[i].0, key) {
            return Some(&pairs[i].1);
        }
    }
    None
}

impl BencodeValue {
    /// The recorded byte span of the node, as (start, end).
    pub fn span(&self) -> (r: (usize, usize))
        ensures
            r.0 == self.start(),
            r.1 == self.end_pos(),
    {
        match self {
            BencodeValue::Str { start, end, .. } => (*start, *end),
            BencodeValue::Integer { start, end, .. } => (*start, *end),
            BencodeValue::List { start, end, .. } => (*start, *end),
            BencodeValue::Dict { start, end, .. } => (*start, *end),
        }
    }

    /// Structural equality of the underlying values, spans ignored.
    #[verifier::loop_isolation(false)]
    pub fn same_value(&self, other: &BencodeValue) -> (r: bool)
        ensures
            r == (self@ == other@),
        decreases self,
    {
        match (self, other) {
            (
                BencodeValue::Str { bytes: a, .. },
                BencodeValue::Str { bytes: b, .. },
            ) => bytes_eq(a, b),
            (
                BencodeValue::Integer { value: a, .. },
                BencodeValue::Integer { value: b, .. },
            ) => *a == *b,
            (
                BencodeValue::List { items: a, .. },
                BencodeValue::List { items: b, .. },
            ) => {
                proof {
                    lemma_views_of(a@);
                    lemma_views_of(b@);
                }
                if a.len() != b.len() {
                    return false;
                }
                let mut i: usize = 0;
                while i < a.len()
                    invariant
                        i <= a@.len(),
                        forall|j: int| 0 <= j < i ==> view_of(#[trigger] a@[j]) == view_of(b@[j]),
                    decreases a@.len() - i,
                {
                    if !(&a[i]).same_value(&b[i]) {
                        return false;
                    }
                    i = i + 1;
                }
                proof {
                    assert forall|k: int|
                        0 <= k < views_of(a@).len() implies views_of(a@)[k] == views_of(
                        b@,
                    )[k] by {
                        assert(views_of(a@)[k] == view_of(a@[k]));
                        assert(views_of(b@)[k] == view_of(b@[k]));
                    }
                    assert(views_of(a@) =~= views_of(b@));
                }
                true
            },
            (
                BencodeValue::Dict { pairs: a, .. },
                BencodeValue::Dict { pairs: b, .. },
            ) => {
                proof {
                    lemma_pair_views_of(a@);
                    lemma_pair_views_of(b@);
                }
                if a.len() != b.len() {
                    return false;
                }
                let mut i: usize = 0;
                while i < a.len()
                    invariant
                        i <= a@.len(),
                        forall|j: int|
                            0 <= j < i ==> (#[trigger] a@[j]).0@ == b@[j].0@ && view_of(a@[j].1)
                                == view_of(b@[j].1),
                    decreases a@.len() - i,
                {
                    if !bytes_eq(&a[i].0, &b[i].0) {
                        return false;
                    }
                    if !(&a[i].1).same_value(&b[i].1) {
                        return false;
                    }
                    i = i + 1;
                }
                proof {
                    assert forall|k: int|
                        0 <= k < pair_views_of(a@).len() implies pair_views_of(a@)[k]
                        == pair_views_of(b@)[k] by {
                        assert(pair_views_of(a@)[k] == (a@[k].0@, view_of(a@[k].1)));
                        assert(pair_views_of(b@)[k] == (b@[k].0@, view_of(b@[k].1)));
                    }
                    assert(pair_views_of(a@) =~= pair_views_of(b@));
                }
                true
            },
            _ => false,
        }
    }
}

/// The byte sequence of the `info` dictionary key.
pub open spec fn spec_info_key() -> Seq<u8> {
    seq![105u8, 110u8, 102u8, 111u8]
}

/// The bytes of the `info` dictionary key.
fn info_key() -> (r: Vec<u8>)
    ensures
        r@ == spec_info_key(),
{
    let mut k: Vec<u8> = Vec::new();
    k.push(105);
    k.push(110);
    k.push(102);
    k.push(111);
    proof {
        assert(k@ =~= spec_info_key());
    }
    k
}

impl<'a> BencodeParser<'a> {
    /// The start offset of the span of the value stored under the `info`
    /// key of an already-decoded dictionary. This is a lookup over recorded
    /// spans, not a re-parse of the buffer.
    pub fn find_info_position(&self, root: &BencodeValue) -> (r: Option<usize>)
        ensures
            match *root {
                BencodeValue::Dict { pairs, .. } => match pairs_get(pairs@, spec_info_key()) {
                    Some(node) => r == Some(node.start()),
                    None => r is None,
                },
                _ => r is None,
            },
    {
        match root {
            BencodeValue::Dict { pairs, .. } => {
                let key = info_key();
                match dict_lookup(pairs, &key) {
                    Some(node) => Some(node.span().0),
                    None => None,
                }
            },
            _ => None,
        }
    }

    /// The end offset of the span of the value stored under the `info` key
    /// of an already-decoded dictionary.
    pub fn find_info_end(&self, root: &BencodeValue) -> (r: Option<usize>)
        ensures
            match *root {
                BencodeValue::Dict { pairs, .. } => match pairs_get(pairs@, spec_info_key()) {
                    Some(node) => r == Some(node.end_pos()),
                    None => r is None,
                },
                _ => r is None,
            },
    {
        match root {
            BencodeValue::Dict { pairs, .. } => {
                let key = info_key();
                match dict_lookup(pairs, &key) {
                    Some(node) => Some(node.span().1),
                    None => None,
                }
            },
            _ => None,
        }
    }
}


/// What `pairs_get` returns is one of the stored values.
pub proof fn lemma_pairs_get_member(prs: Seq<(Vec<u8>, BencodeValue)>, key: Seq<u8>)
    ensures
        pairs_get(prs, key) matches Some(v) ==> exists|i: int|
            0 <= i < prs.len() && (#[trigger] prs[i]).1 == v,
    decreases prs,
{
    if prs.len() > 0 {
        if prs.last().0@ == key {
            assert(prs[prs.len() - 1].1 == prs.last().1);
        } else {
            lemma_pairs_get_member(prs.drop_last(), key);
            match pairs_get(prs.drop_last(), key) {
                Some(v) => {
                    let i = choose|i: int|
                        0 <= i < prs.drop_last().len() && (#[trigger] prs.drop_last()[i]).1 == v;
                    assert(prs[i] == prs.drop_last()[i]);
                },
                None => {},
            }
        }
    }
}


/// Law: decoding is deterministic. The decode result is a function of the
/// buffer alone — `BencodeParser::parse` ensures its result equals
/// `sdec_value` of the buffer — so two decodes of equal buffers agree.
pub proof fn lemma_decode_deterministic(
    s1: Seq<u8>,
    s2: Seq<u8>,
    r1: Result<(BValue, int), (ParseErrorKind, int)>,
    r2: Result<(BValue, int), (ParseErrorKind, int)>,
)
    requires
        s1 == s2,
        r1 == sdecode(s1),
        r2 == sdecode(s2),
    ensures
        r1 == r2,
{
}


/// The view of any decoded tree is encodable: its integers are 64-bit by
/// construction, so `lemma_round_trip` applies to every tree the decoder
/// or a caller builds.
pub proof fn lemma_view_encodable(v: BencodeValue)
    ensures
        encodable(v@),
    decreases v,
{
    match v {
        BencodeValue::List { items, .. } => {
            lemma_views_of(items@);
            assert forall|i: int|
                0 <= i < views_of(items@).len() implies encodable(
                #[trigger] views_of(items@)[i],
            ) by {
                lemma_view_encodable(items@[i]);
            }
        },
        BencodeValue::Dict { pairs, .. } => {
            lemma_pair_views_of(pairs@);
            assert forall|i: int|
                0 <= i < pair_views_of(pairs@).len() implies encodable(
                (#[trigger] pair_views_of(pairs@)[i]).1,
            ) by {
                lemma_view_encodable(pairs@[i].1);
            }
        },
        _ => {},
    }
}

} // verus!
