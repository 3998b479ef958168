//! The bracketed-list text format for network parameters, as ASCII bytes.
//!
//! A document is three top-level bracketed sections in order —
//! `[shape],[weights],[biases]` — where the shape is a comma-separated
//! list of integers, the weights section holds one bracketed list per
//! layer of per-neuron bracketed lists of scalar literals, and the biases
//! section holds one bracketed list per layer of scalar literals. Spaces
//! and newlines are insignificant and stripped before parsing, and a
//! single trailing comma at the end of the document is tolerated.
//! Encoding writes the canonical form: no whitespace, comma-separated, no
//! trailing commas. Scalar literals are rendered and read by the
//! [`ScalarOps`] implementation; a malformed literal anywhere is an
//! unrecoverable error (there is no partial decode).

use vstd::prelude::*;

use crate::scalar::ScalarOps;

verus! {

/// The byte that opens a bracketed list.
pub const OPEN_BRACKET: u8 = 91;

/// The byte that closes a bracketed list.
pub const CLOSE_BRACKET: u8 = 93;

/// The byte that separates list items.
pub const COMMA: u8 = 44;

/// The space byte, stripped before parsing.
pub const SPACE: u8 = 32;

/// The newline byte, stripped before parsing.
pub const NEWLINE: u8 = 10;

/// How a document can be malformed; every variant is an unrecoverable
/// failure for the caller.
#[derive(Clone, Copy, Debug, PartialEq, Eq, Structural)]
pub enum NeurError {
    /// Nothing but whitespace in the document.
    Empty,
    /// Fewer than three top-level bracketed sections.
    MissingSections,
    /// A shape entry that is not an unsigned decimal integer in range.
    BadInteger,
    /// A weight or bias literal the scalar implementation rejects.
    BadScalar,
    /// Sections that do not fit each other: the weights and biases do
    /// not have the dimensions the shape declares, or a width is zero.
    Inconsistent,
}

/// The document with every space and newline removed.
pub open spec fn spec_strip_ws(s: Seq<u8>) -> Seq<u8>
    decreases s.len(),
{
    if s.len() == 0 {
        Seq::empty()
    } else if s[0] == SPACE || s[0] == NEWLINE {
        spec_strip_ws(s.drop_first())
    } else {
        seq![s[0]] + spec_strip_ws(s.drop_first())
    }
}

/// The document with one trailing comma removed, if it ends with one.
pub open spec fn spec_trim_comma(s: Seq<u8>) -> Seq<u8> {
    if s.len() > 0 && s.last() == COMMA {
        s.drop_last()
    } else {
        s
    }
}

/// The top-level list splitter: walks the bytes tracking bracket depth,
/// collects the content between a depth-raising `[` and its matching `]`
/// (inner brackets kept), and discards whatever stands between groups.
pub open spec fn spec_groups(s: Seq<u8>, depth: int, buf: Seq<u8>, acc: Seq<Seq<u8>>) -> Seq<
    Seq<u8>,
>
    decreases s.len(),
{
    if s.len() == 0 {
        acc
    } else {
        let c = s[0];
        if c == CLOSE_BRACKET {
            if depth - 1 == 0 {
                spec_groups(s.drop_first(), depth - 1, buf, acc.push(buf))
            } else {
                spec_groups(s.drop_first(), depth - 1, buf.push(c), acc)
            }
        } else if c == OPEN_BRACKET {
            if depth + 1 == 1 {
                spec_groups(s.drop_first(), depth + 1, Seq::empty(), acc)
            } else {
                spec_groups(s.drop_first(), depth + 1, buf.push(c), acc)
            }
        } else {
            spec_groups(s.drop_first(), depth, buf.push(c), acc)
        }
    }
}

/// The item splitter: splits on commas; an empty piece before a comma is
/// kept, an empty piece at the very end is dropped.
pub open spec fn spec_items(s: Seq<u8>, buf: Seq<u8>, acc: Seq<Seq<u8>>) -> Seq<Seq<u8>>
    decreases s.len(),
{
    if s.len() == 0 {
        if buf.len() == 0 {
            acc
        } else {
            acc.push(buf)
        }
    } else if s[0] == COMMA {
        spec_items(s.drop_first(), Seq::empty(), acc.push(buf))
    } else {
        spec_items(s.drop_first(), buf.push(s[0]), acc)
    }
}

/// Whether every byte of a piece is a decimal digit.
pub open spec fn spec_all_digits(s: Seq<u8>) -> bool {
    forall|i: int| 0 <= i < s.len() ==> 48 <= #[trigger] s[i] <= 57
}

/// The number denoted by a digit string, most significant digit first.
pub open spec fn spec_digits_val(s: Seq<u8>) -> int
    decreases s.len(),
{
    if s.len() == 0 {
        0
    } else {
        spec_digits_val(s.drop_last()) * 10 + (s.last() - 48)
    }
}

/// The integer denoted by a piece: it must be non-empty, all digits, and
/// fit the machine word.
pub open spec fn spec_parse_usize(s: Seq<u8>) -> Option<usize> {
    if s.len() > 0 && spec_all_digits(s) && spec_digits_val(s) <= usize::MAX {
        Some(spec_digits_val(s) as usize)
    } else {
        None
    }
}

/// The decimal digits of a number, most significant first.
pub open spec fn spec_render_usize(n: nat) -> Seq<u8>
    decreases n,
{
    if n < 10 {
        seq![(48 + n) as u8]
    } else {
        spec_render_usize(n / 10) + seq![(48 + n % 10) as u8]
    }
}

/// Prefixes a successfully parsed scalar list.
pub open spec fn spec_append_u64s(pre: Seq<u64>, r: Option<Seq<u64>>) -> Option<Seq<u64>> {
    match r {
        Some(t) => Some(pre + t),
        None => None,
    }
}

/// The scalars denoted by a list of pieces; `None` as soon as one piece
/// is rejected.
pub open spec fn spec_parse_scalars<O: ScalarOps>(items: Seq<Seq<u8>>) -> Option<Seq<u64>>
    decreases items.len(),
{
    if items.len() == 0 {
        Some(Seq::empty())
    } else {
        match O::spec_parse(items[0]) {
            Some(x) => spec_append_u64s(seq![x], spec_parse_scalars::<O>(items.drop_first())),
            None => None,
        }
    }
}

/// Prefixes a successfully parsed integer list.
pub open spec fn spec_append_usizes(pre: Seq<usize>, r: Option<Seq<usize>>) -> Option<Seq<usize>> {
    match r {
        Some(t) => Some(pre + t),
        None => None,
    }
}

/// The integers denoted by a list of pieces; `None` as soon as one piece
/// is rejected.
pub open spec fn spec_parse_usizes(items: Seq<Seq<u8>>) -> Option<Seq<usize>>
    decreases items.len(),
{
    if items.len() == 0 {
        Some(Seq::empty())
    } else {
        match spec_parse_usize(items[0]) {
            Some(x) => spec_append_usizes(seq![x], spec_parse_usizes(items.drop_first())),
            None => None,
        }
    }
}

/// One neuron's weights: the scalars of the comma-separated pieces of its
/// group.
pub open spec fn spec_parse_neuron<O: ScalarOps>(g: Seq<u8>) -> Option<Seq<u64>> {
    spec_parse_scalars::<O>(spec_items(g, Seq::empty(), Seq::empty()))
}

/// Prefixes a successfully parsed list of rows.
pub open spec fn spec_append_rows(pre: Seq<Seq<u64>>, r: Option<Seq<Seq<u64>>>) -> Option<
    Seq<Seq<u64>>,
> {
    match r {
        Some(t) => Some(pre + t),
        None => None,
    }
}

/// The weight rows of one layer: one row per bracketed neuron group.
pub open spec fn spec_parse_neurons<O: ScalarOps>(groups: Seq<Seq<u8>>) -> Option<Seq<Seq<u64>>>
    decreases groups.len(),
{
    if groups.len() == 0 {
        Some(Seq::empty())
    } else {
        match spec_parse_neuron::<O>(groups[0]) {
            Some(row) => spec_append_rows(
                seq![row],
                spec_parse_neurons::<O>(groups.drop_first()),
            ),
            None => None,
        }
    }
}

/// Prefixes a successfully parsed list of layers.
pub open spec fn spec_append_layers(
    pre: Seq<Seq<Seq<u64>>>,
    r: Option<Seq<Seq<Seq<u64>>>>,
) -> Option<Seq<Seq<Seq<u64>>>> {
    match r {
        Some(t) => Some(pre + t),
        None => None,
    }
}

/// The weights of every layer: one bracketed group per layer, each split
/// into bracketed neuron groups.
pub open spec fn spec_parse_layers<O: ScalarOps>(groups: Seq<Seq<u8>>) -> Option<
    Seq<Seq<Seq<u64>>>,
>
    decreases groups.len(),
{
    if groups.len() == 0 {
        Some(Seq::empty())
    } else {
        match spec_parse_neurons::<O>(
            spec_groups(groups[0], 0, Seq::empty(), Seq::empty()),
        ) {
            Some(layer) => spec_append_layers(
                seq![layer],
                spec_parse_layers::<O>(groups.drop_first()),
            ),
            None => None,
        }
    }
}

/// The biases of every layer: one bracketed group per layer, each a
/// comma-separated scalar list.
pub open spec fn spec_parse_bias_layers<O: ScalarOps>(groups: Seq<Seq<u8>>) -> Option<
    Seq<Seq<u64>>,
>
    decreases groups.len(),
{
    if groups.len() == 0 {
        Some(Seq::empty())
    } else {
        match spec_parse_scalars::<O>(spec_items(groups[0], Seq::empty(), Seq::empty())) {
            Some(layer) => spec_append_rows(
                seq![layer],
                spec_parse_bias_layers::<O>(groups.drop_first()),
            ),
            None => None,
        }
    }
}

/// The decoding of a whole parameter document: strip whitespace, trim one
/// trailing comma, split the top-level bracketed sections, and read the
/// shape, the weights and the biases from the first three.
pub open spec fn spec_parse_neur<O: ScalarOps>(s: Seq<u8>) -> Result<
    (Seq<usize>, Seq<Seq<Seq<u64>>>, Seq<Seq<u64>>),
    NeurError,
> {
    let stripped = spec_strip_ws(s);
    if stripped.len() == 0 {
        Err(NeurError::Empty)
    } else {
        let groups = spec_groups(spec_trim_comma(stripped), 0, Seq::empty(), Seq::empty());
        if groups.len() < 3 {
            Err(NeurError::MissingSections)
        } else {
            match spec_parse_usizes(spec_items(groups[0], Seq::empty(), Seq::empty())) {
                None => Err(NeurError::BadInteger),
                Some(shape) => match spec_parse_layers::<O>(
                    spec_groups(groups[1], 0, Seq::empty(), Seq::empty()),
                ) {
                    None => Err(NeurError::BadScalar),
                    Some(weights) => match spec_parse_bias_layers::<O>(
                        spec_groups(groups[2], 0, Seq::empty(), Seq::empty()),
                    ) {
                        None => Err(NeurError::BadScalar),
                        Some(biases) => Ok((shape, weights, biases)),
                    },
                },
            }
        }
    }
}

/// The comma-joined concatenation of pieces.
pub open spec fn spec_join(parts: Seq<Seq<u8>>) -> Seq<u8>
    decreases parts.len(),
{
    if parts.len() == 0 {
        Seq::empty()
    } else if parts.len() == 1 {
        parts[0]
    } else {
        parts[0] + seq![COMMA] + spec_join(parts.drop_first())
    }
}

/// A piece wrapped in one pair of brackets.
pub open spec fn spec_wrap(x: Seq<u8>) -> Seq<u8> {
    seq![OPEN_BRACKET] + x + seq![CLOSE_BRACKET]
}

/// The rendered shape pieces: one decimal integer per entry.
pub open spec fn spec_shape_tokens(shape: Seq<usize>) -> Seq<Seq<u8>> {
    Seq::new(shape.len(), |i: int| spec_render_usize(shape[i] as nat))
}

/// The rendered literals of one scalar row.
pub open spec fn spec_scalar_tokens<O: ScalarOps>(row: Seq<u64>) -> Seq<Seq<u8>> {
    Seq::new(row.len(), |i: int| O::spec_render(row[i]))
}

/// The rendered group of one neuron: its literals, joined and wrapped.
pub open spec fn spec_render_neuron<O: ScalarOps>(row: Seq<u64>) -> Seq<u8> {
    spec_wrap(spec_join(spec_scalar_tokens::<O>(row)))
}

/// The rendered group of one weights layer: its neuron groups, joined and
/// wrapped.
pub open spec fn spec_render_layer<O: ScalarOps>(layer: Seq<Seq<u64>>) -> Seq<u8> {
    spec_wrap(spec_join(Seq::new(layer.len(), |i: int| spec_render_neuron::<O>(layer[i]))))
}

/// The rendered group of one bias layer: its literals, joined and
/// wrapped.
pub open spec fn spec_render_bias_layer<O: ScalarOps>(row: Seq<u64>) -> Seq<u8> {
    spec_wrap(spec_join(spec_scalar_tokens::<O>(row)))
}

/// The canonical document: the three sections, each bracketed, separated
/// by commas, with no whitespace and no trailing comma.
pub open spec fn spec_render_neur<O: ScalarOps>(
    shape: Seq<usize>,
    weights: Seq<Seq<Seq<u64>>>,
    biases: Seq<Seq<u64>>,
) -> Seq<u8> {
    spec_wrap(spec_join(spec_shape_tokens(shape))) + seq![COMMA] + spec_wrap(
        spec_join(Seq::new(weights.len(), |i: int| spec_render_layer::<O>(weights[i]))),
    ) + seq![COMMA] + spec_wrap(
        spec_join(Seq::new(biases.len(), |i: int| spec_render_bias_layer::<O>(biases[i]))),
    )
}

/// The views of a list of byte vectors.
pub open spec fn spec_byte_lists(v: Seq<Vec<u8>>) -> Seq<Seq<u8>> {
    Seq::new(v.len(), |i: int| v[i]@)
}

/// The views of a list of scalar rows.
pub open spec fn spec_rows_view(v: Seq<Vec<u64>>) -> Seq<Seq<u64>> {
    Seq::new(v.len(), |i: int| v[i]@)
}

/// The views of a list of layers of scalar rows.
pub open spec fn spec_layers_view(v: Seq<Vec<Vec<u64>>>) -> Seq<Seq<Seq<u64>>> {
    Seq::new(v.len(), |i: int| spec_rows_view(v[i]@))
}

/// Copies a byte vector element by element.
fn copy_bytes(v: &Vec<u8>) -> (r: Vec<u8>)
    ensures
        r@ == v@,
{
    let mut r: Vec<u8> = Vec::new();
    let mut i: usize = 0;
    while i < v.len()
        invariant
            0 <= i <= v@.len(),
            r@.len() == i,
            forall|k: int| 0 <= k < i ==> #[trigger] r@[k] == v@[k],
        decreases v@.len() - i,
    {
        r.push(v[i]);
        i += 1;
    }
    proof {
        assert(r@ =~= v@);
    }
    r
}

/// Removes every space and newline.
fn strip_ws(data: &Vec<u8>) -> (r: Vec<u8>)
    ensures
        r@ == spec_strip_ws(data@),
{
    let mut out: Vec<u8> = Vec::new();
    let mut i: usize = 0;
    proof {
        assert(data@.skip(0) =~= data@);
    }
    while i < data.len()
        invariant
            0 <= i <= data@.len(),
            spec_strip_ws(data@) == out@ + spec_strip_ws(data@.skip(i as int)),
        decreases data@.len() - i,
    {
        let c: u8 = data[i];
        proof {
            assert(data@.skip(i as int)[0] == c);
            assert(data@.skip(i as int).drop_first() =~= data@.skip(i as int + 1));
        }
        if c != SPACE && c != NEWLINE {
            proof {
                assert(out@.push(c) + spec_strip_ws(data@.skip(i as int + 1)) =~= out@ + (seq![c]
                    + spec_strip_ws(data@.skip(i as int + 1))));
            }
            out.push(c);
        }
        i += 1;
    }
    proof {
        assert(data@.skip(data@.len() as int) =~= Seq::<u8>::empty());
        assert(out@ + Seq::<u8>::empty() =~= out@);
    }
    out
}

/// Removes one trailing comma, if the document ends with one.
fn trim_comma(v: Vec<u8>) -> (r: Vec<u8>)
    ensures
        r@ == spec_trim_comma(v@),
{
    let ghost v0 = v@;
    let mut v = v;
    if v.len() > 0 && v[v.len() - 1] == COMMA {
        let _ = v.pop();
        proof {
            assert(v@ =~= spec_trim_comma(v0));
        }
    }
    v
}

/// Splits the top-level bracketed groups, as the splitter specification
/// says.
fn vectorize_lists(data: &Vec<u8>) -> (r: Vec<Vec<u8>>)
    ensures
        spec_byte_lists(r@) == spec_groups(data@, 0, Seq::empty(), Seq::empty()),
{
    let mut acc: Vec<Vec<u8>> = Vec::new();
    let mut buf: Vec<u8> = Vec::new();
    let mut depth: i128 = 0;
    let mut i: usize = 0;
    proof {
        assert(data@.skip(0) =~= data@);
        assert(spec_byte_lists(acc@) =~= Seq::<Seq<u8>>::empty());
    }
    while i < data.len()
        invariant
            0 <= i <= data@.len(),
            -(i as int) <= depth <= i as int,
            spec_groups(data@, 0, Seq::empty(), Seq::empty()) == spec_groups(
                data@.skip(i as int),
                depth as int,
                buf@,
                spec_byte_lists(acc@),
            ),
        decreases data@.len() - i,
    {
        let c: u8 = data[i];
        proof {
            assert(data@.skip(i as int)[0] == c);
            assert(data@.skip(i as int).drop_first() =~= data@.skip(i as int + 1));
        }
        if c == CLOSE_BRACKET {
            depth = depth - 1;
            if depth == 0 {
                let piece: Vec<u8> = copy_bytes(&buf);
                proof {
                    assert(spec_byte_lists(acc@.push(piece)) =~= spec_byte_lists(acc@).push(
                        buf@,
                    ));
                }
                acc.push(piece);
            } else {
                buf.push(c);
            }
        } else if c == OPEN_BRACKET {
            depth = depth + 1;
            if depth == 1 {
                buf = Vec::new();
            } else {
                buf.push(c);
            }
        } else {
            buf.push(c);
        }
        i += 1;
    }
    proof {
        assert(data@.skip(data@.len() as int) =~= Seq::<u8>::empty());
    }
    acc
}

/// Splits a group on commas, as the item specification says.
fn vectorize_numlist(data: &Vec<u8>) -> (r: Vec<Vec<u8>>)
    ensures
        spec_byte_lists(r@) == spec_items(data@, Seq::empty(), Seq::empty()),
{
    let mut acc: Vec<Vec<u8>> = Vec::new();
    let mut buf: Vec<u8> = Vec::new();
    let mut i: usize = 0;
    proof {
        assert(data@.skip(0) =~= data@);
        assert(spec_byte_lists(acc@) =~= Seq::<Seq<u8>>::empty());
    }
    while i < data.len()
        invariant
            0 <= i <= data@.len(),
            spec_items(data@, Seq::empty(), Seq::empty()) == spec_items(
                data@.skip(i as int),
                buf@,
                spec_byte_lists(acc@),
            ),
        decreases data@.len() - i,
    {
        let c: u8 = data[i];
        proof {
            assert(data@.skip(i as int)[0] == c);
            assert(data@.skip(i as int).drop_first() =~= data@.skip(i as int + 1));
        }
        if c == COMMA {
            let piece: Vec<u8> = copy_bytes(&buf);
            proof {
                assert(spec_byte_lists(acc@.push(piece)) =~= spec_byte_lists(acc@).push(buf@));
            }
            acc.push(piece);
            buf = Vec::new();
        } else {
            buf.push(c);
        }
        i += 1;
    }
    if buf.len() > 0 {
        proof {
            assert(spec_byte_lists(acc@.push(buf)) =~= spec_byte_lists(acc@).push(buf@));
        }
        acc.push(buf);
    }
    proof {
        assert(data@.skip(data@.len() as int) =~= Seq::<u8>::empty());
    }
    acc
}

/// A digit string denotes a value at least as large as any of its
/// prefixes' values.
proof fn lemma_digits_val_bounds(s: Seq<u8>, k: int)
    requires
        spec_all_digits(s),
        0 <= k <= s.len(),
    ensures
        spec_digits_val(s) >= spec_digits_val(s.take(k)) >= 0,
    decreases s.len() - k,
{
    if k == s.len() {
        assert(s.take(k) =~= s);
        lemma_digits_val_nonneg(s);
    } else {
        assert(s.take(k + 1).drop_last() =~= s.take(k));
        assert(s.take(k + 1).last() == s[k]);
        lemma_digits_val_nonneg(s.take(k));
        lemma_digits_val_bounds(s, k + 1);
    }
}

/// A digit string denotes a non-negative value.
proof fn lemma_digits_val_nonneg(s: Seq<u8>)
    requires
        spec_all_digits(s),
    ensures
        spec_digits_val(s) >= 0,
    decreases s.len(),
{
    if s.len() > 0 {
        assert(spec_all_digits(s.drop_last()));
        lemma_digits_val_nonneg(s.drop_last());
    }
}

/// Reads an unsigned decimal integer, as the integer specification says.
fn parse_usize_bytes(s: &Vec<u8>) -> (r: Option<usize>)
    ensures
        r == spec_parse_usize(s@),
{
    if s.len() == 0 {
        return None;
    }
    let mut value: usize = 0;
    let mut i: usize = 0;
    while i < s.len()
        invariant
            0 <= i <= s@.len(),
            spec_all_digits(s@.take(i as int)),
            value == spec_digits_val(s@.take(i as int)),
        decreases s@.len() - i,
    {
        let c: u8 = s[i];
        if c < 48 || c > 57 {
            proof {
                assert(!spec_all_digits(s@));
            }
            return None;
        }
        let d: usize = (c - 48) as usize;
        proof {
            assert(s@.take(i as int + 1).drop_last() =~= s@.take(i as int));
            assert(s@.take(i as int + 1).last() == s@[i as int]);
            assert(spec_all_digits(s@.take(i as int + 1)));
        }
        let scaled: usize = match value.checked_mul(10) {
            Some(x) => x,
            None => {
                proof {
                    lemma_digits_val_nonneg(s@.take(i as int));
                    if spec_all_digits(s@) {
                        lemma_digits_val_bounds(s@, i as int + 1);
                    }
                }
                return None;
            },
        };
        let next: usize = match scaled.checked_add(d) {
            Some(x) => x,
            None => {
                proof {
                    lemma_digits_val_nonneg(s@.take(i as int));
                    if spec_all_digits(s@) {
                        lemma_digits_val_bounds(s@, i as int + 1);
                    }
                }
                return None;
            },
        };
        value = next;
        i += 1;
    }
    proof {
        assert(s@.take(s@.len() as int) =~= s@);
        lemma_digits_val_nonneg(s@);
    }
    Some(value)
}

/// Reads every piece as an integer, as the integer-list specification
/// says.
fn parse_usize_list(items: &Vec<Vec<u8>>) -> (r: Option<Vec<usize>>)
    ensures
        match r {
            Some(v) => spec_parse_usizes(spec_byte_lists(items@)) == Some(v@),
            None => spec_parse_usizes(spec_byte_lists(items@)) is None,
        },
{
    let ghost toks = spec_byte_lists(items@);
    let mut out: Vec<usize> = Vec::new();
    let mut i: usize = 0;
    proof {
        assert(toks.skip(0) =~= toks);
    }
    while i < items.len()
        invariant
            0 <= i <= items@.len(),
            toks == spec_byte_lists(items@),
            toks.len() == items@.len(),
            spec_parse_usizes(toks) == spec_append_usizes(
                out@,
                spec_parse_usizes(toks.skip(i as int)),
            ),
        decreases items@.len() - i,
    {
        proof {
            assert(toks.skip(i as int)[0] == toks[i as int]);
            assert(toks.skip(i as int).drop_first() =~= toks.skip(i as int + 1));
        }
        let parsed: Option<usize> = parse_usize_bytes(&items[i]);
        let x: usize = match parsed {
            Some(x) => x,
            None => {
                return None;
            },
        };
        proof {
            match spec_parse_usizes(toks.skip(i as int + 1)) {
                Some(t) => {
                    assert(out@ + (seq![x] + t) =~= out@.push(x) + t);
                },
                None => {},
            }
        }
        out.push(x);
        i += 1;
    }
    proof {
        assert(toks.skip(toks.len() as int) =~= Seq::<Seq<u8>>::empty());
        assert(out@ + Seq::<usize>::empty() =~= out@);
    }
    Some(out)
}

/// Reads every piece as a scalar literal, as the scalar-list
/// specification says.
fn parse_scalar_items<O: ScalarOps>(items: &Vec<Vec<u8>>) -> (r: Option<Vec<u64>>)
    ensures
        match r {
            Some(v) => spec_parse_scalars::<O>(spec_byte_lists(items@)) == Some(v@),
            None => spec_parse_scalars::<O>(spec_byte_lists(items@)) is None,
        },
{
    let ghost toks = spec_byte_lists(items@);
    let mut out: Vec<u64> = Vec::new();
    let mut i: usize = 0;
    proof {
        assert(toks.skip(0) =~= toks);
    }
    while i < items.len()
        invariant
            0 <= i <= items@.len(),
            toks == spec_byte_lists(items@),
            toks.len() == items@.len(),
            spec_parse_scalars::<O>(toks) == spec_append_u64s(
                out@,
                spec_parse_scalars::<O>(toks.skip(i as int)),
            ),
        decreases items@.len() - i,
    {
        proof {
            assert(toks.skip(i as int)[0] == toks[i as int]);
            assert(toks.skip(i as int).drop_first() =~= toks.skip(i as int + 1));
        }
        let parsed: Option<u64> = O::parse(items[i].as_slice());
        let x: u64 = match parsed {
            Some(x) => x,
            None => {
                return None;
            },
        };
        proof {
            match spec_parse_scalars::<O>(toks.skip(i as int + 1)) {
                Some(t) => {
                    assert(out@ + (seq![x] + t) =~= out@.push(x) + t);
                },
                None => {},
            }
        }
        out.push(x);
        i += 1;
    }
    proof {
        assert(toks.skip(toks.len() as int) =~= Seq::<Seq<u8>>::empty());
        assert(out@ + Seq::<u64>::empty() =~= out@);
    }
    Some(out)
}

/// Reads one layer's neuron groups, as the row-list specification says.
fn parse_neuron_groups<O: ScalarOps>(groups: &Vec<Vec<u8>>) -> (r: Option<Vec<Vec<u64>>>)
    ensures
        match r {
            Some(v) => spec_parse_neurons::<O>(spec_byte_lists(groups@)) == Some(
                spec_rows_view(v@),
            ),
            None => spec_parse_neurons::<O>(spec_byte_lists(groups@)) is None,
        },
{
    let ghost toks = spec_byte_lists(groups@);
    let mut out: Vec<Vec<u64>> = Vec::new();
    let mut i: usize = 0;
    proof {
        assert(toks.skip(0) =~= toks);
        assert(spec_rows_view(out@) =~= Seq::<Seq<u64>>::empty());
    }
    while i < groups.len()
        invariant
            0 <= i <= groups@.len(),
            toks == spec_byte_lists(groups@),
            toks.len() == groups@.len(),
            spec_parse_neurons::<O>(toks) == spec_append_rows(
                spec_rows_view(out@),
                spec_parse_neurons::<O>(toks.skip(i as int)),
            ),
        decreases groups@.len() - i,
    {
        proof {
            assert(toks.skip(i as int)[0] == toks[i as int]);
            assert(toks.skip(i as int).drop_first() =~= toks.skip(i as int + 1));
        }
        let items: Vec<Vec<u8>> = vectorize_numlist(&groups[i]);
        let parsed: Option<Vec<u64>> = parse_scalar_items::<O>(&items);
        let row: Vec<u64> = match parsed {
            Some(row) => row,
            None => {
                return None;
            },
        };
        proof {
            match spec_parse_neurons::<O>(toks.skip(i as int + 1)) {
                Some(t) => {
                    assert(spec_rows_view(out@) + (seq![row@] + t) =~= spec_rows_view(
                        out@.push(row),
                    ) + t);
                },
                None => {},
            }
        }
        out.push(row);
        i += 1;
    }
    proof {
        assert(toks.skip(toks.len() as int) =~= Seq::<Seq<u8>>::empty());
        assert(spec_rows_view(out@) + Seq::<Seq<u64>>::empty() =~= spec_rows_view(out@));
    }
    Some(out)
}

/// Reads the weights section's layer groups, as the layer-list
/// specification says.
fn parse_layer_groups<O: ScalarOps>(groups: &Vec<Vec<u8>>) -> (r: Option<Vec<Vec<Vec<u64>>>>)
    ensures
        match r {
            Some(v) => spec_parse_layers::<O>(spec_byte_lists(groups@)) == Some(
                spec_layers_view(v@),
            ),
            None => spec_parse_layers::<O>(spec_byte_lists(groups@)) is None,
        },
{
    let ghost toks = spec_byte_lists(groups@);
    let mut out: Vec<Vec<Vec<u64>>> = Vec::new();
    let mut i: usize = 0;
    proof {
        assert(toks.skip(0) =~= toks);
        assert(spec_layers_view(out@) =~= Seq::<Seq<Seq<u64>>>::empty());
    }
    while i < groups.len()
        invariant
            0 <= i <= groups@.len(),
            toks == spec_byte_lists(groups@),
            toks.len() == groups@.len(),
            spec_parse_layers::<O>(toks) == spec_append_layers(
                spec_layers_view(out@),
                spec_parse_layers::<O>(toks.skip(i as int)),
            ),
        decreases groups@.len() - i,
    {
        proof {
            assert(toks.skip(i as int)[0] == toks[i as int]);
            assert(toks.skip(i as int).drop_first() =~= toks.skip(i as int + 1));
        }
        let neuron_groups: Vec<Vec<u8>> = vectorize_lists(&groups[i]);
        let parsed: Option<Vec<Vec<u64>>> = parse_neuron_groups::<O>(&neuron_groups);
        let layer: Vec<Vec<u64>> = match parsed {
            Some(layer) => layer,
            None => {
                return None;
            },
        };
        proof {
            match spec_parse_layers::<O>(toks.skip(i as int + 1)) {
                Some(t) => {
                    assert(spec_layers_view(out@) + (seq![spec_rows_view(layer@)] + t)
                        =~= spec_layers_view(out@.push(layer)) + t);
                },
                None => {},
            }
        }
        out.push(layer);
        i += 1;
    }
    proof {
        assert(toks.skip(toks.len() as int) =~= Seq::<Seq<u8>>::empty());
        assert(spec_layers_view(out@) + Seq::<Seq<Seq<u64>>>::empty() =~= spec_layers_view(out@));
    }
    Some(out)
}

/// Reads the biases section's layer groups, as the bias-list
/// specification says.
fn parse_bias_groups<O: ScalarOps>(groups: &Vec<Vec<u8>>) -> (r: Option<Vec<Vec<u64>>>)
    ensures
        match r {
            Some(v) => spec_parse_bias_layers::<O>(spec_byte_lists(groups@)) == Some(
                spec_rows_view(v@),
            ),
            None => spec_parse_bias_layers::<O>(spec_byte_lists(groups@)) is None,
        },
{
    let ghost toks = spec_byte_lists(groups@);
    let mut out: Vec<Vec<u64>> = Vec::new();
    let mut i: usize = 0;
    proof {
        assert(toks.skip(0) =~= toks);
        assert(spec_rows_view(out@) =~= Seq::<Seq<u64>>::empty());
    }
    while i < groups.len()
        invariant
            0 <= i <= groups@.len(),
            toks == spec_byte_lists(groups@),
            toks.len() == groups@.len(),
            spec_parse_bias_layers::<O>(toks) == spec_append_rows(
                spec_rows_view(out@),
                spec_parse_bias_layers::<O>(toks.skip(i as int)),
            ),
        decreases groups@.len() - i,
    {
        proof {
            assert(toks.skip(i as int)[0] == toks[i as int]);
            assert(toks.skip(i as int).drop_first() =~= toks.skip(i as int + 1));
        }
        let items: Vec<Vec<u8>> = vectorize_numlist(&groups[i]);
        let parsed: Option<Vec<u64>> = parse_scalar_items::<O>(&items);
        let row: Vec<u64> = match parsed {
            Some(row) => row,
            None => {
                return None;
            },
        };
        proof {
            match spec_parse_bias_layers::<O>(toks.skip(i as int + 1)) {
                Some(t) => {
                    assert(spec_rows_view(out@) + (seq![row@] + t) =~= spec_rows_view(
                        out@.push(row),
                    ) + t);
                },
                None => {},
            }
        }
        out.push(row);
        i += 1;
    }
    proof {
        assert(toks.skip(toks.len() as int) =~= Seq::<Seq<u8>>::empty());
        assert(spec_rows_view(out@) + Seq::<Seq<u64>>::empty() =~= spec_rows_view(out@));
    }
    Some(out)
}

/// Decodes a whole parameter document into its shape, weights and
/// biases, exactly as the document specification says; every error is
/// unrecoverable for the caller.
pub fn parse_neur_file<O: ScalarOps>(data: &Vec<u8>) -> (r: Result<
    (Vec<usize>, Vec<Vec<Vec<u64>>>, Vec<Vec<u64>>),
    NeurError,
>)
    ensures
        match r {
            Ok(t) => spec_parse_neur::<O>(data@) == Ok::<_, NeurError>(
                (t.0@, spec_layers_view(t.1@), spec_rows_view(t.2@)),
            ),
            Err(e) => spec_parse_neur::<O>(data@) == Err::<
                (Seq<usize>, Seq<Seq<Seq<u64>>>, Seq<Seq<u64>>),
                _,
            >(e),
        },
{
    let stripped: Vec<u8> = strip_ws(data);
    if stripped.len() == 0 {
        return Err(NeurError::Empty);
    }
    let trimmed: Vec<u8> = trim_comma(stripped);
    let groups: Vec<Vec<u8>> = vectorize_lists(&trimmed);
    if groups.len() < 3 {
        return Err(NeurError::MissingSections);
    }
    proof {
        assert(spec_byte_lists(groups@)[0] == groups@[0]@);
        assert(spec_byte_lists(groups@)[1] == groups@[1]@);
        assert(spec_byte_lists(groups@)[2] == groups@[2]@);
    }
    let shape_items: Vec<Vec<u8>> = vectorize_numlist(&groups[0]);
    let shape: Vec<usize> = match parse_usize_list(&shape_items) {
        Some(v) => v,
        None => {
            return Err(NeurError::BadInteger);
        },
    };
    let layer_groups: Vec<Vec<u8>> = vectorize_lists(&groups[1]);
    let weights: Vec<Vec<Vec<u64>>> = match parse_layer_groups::<O>(&layer_groups) {
        Some(v) => v,
        None => {
            return Err(NeurError::BadScalar);
        },
    };
    let bias_groups: Vec<Vec<u8>> = vectorize_lists(&groups[2]);
    let biases: Vec<Vec<u64>> = match parse_bias_groups::<O>(&bias_groups) {
        Some(v) => v,
        None => {
            return Err(NeurError::BadScalar);
        },
    };
    Ok((shape, weights, biases))
}

/// Joining one more piece appends a comma (after the first piece) and
/// the piece.
pub proof fn lemma_join_snoc(parts: Seq<Seq<u8>>, i: int)
    requires
        0 <= i < parts.len(),
    ensures
        spec_join(parts.take(i + 1)) == if i == 0 {
            parts[0]
        } else {
            spec_join(parts.take(i)) + seq![COMMA] + parts[i]
        },
    decreases i,
{
    if i == 0 {
        assert(parts.take(1) =~= seq![parts[0]]);
        assert(seq![parts[0]][0] == parts[0]);
    } else {
        lemma_join_snoc(parts.drop_first(), i - 1);
        assert(parts.take(i + 1).drop_first() =~= parts.drop_first().take(i));
        assert(parts.take(i).drop_first() =~= parts.drop_first().take(i - 1));
        assert(parts.take(i + 1)[0] == parts[0]);
        assert(parts.take(i)[0] == parts[0]);
        assert(parts.drop_first()[i - 1] == parts[i]);
        if i == 1 {
            assert(parts.drop_first().take(1) =~= seq![parts[1]]);
            assert(spec_join(parts.take(2)) == parts[0] + seq![COMMA] + spec_join(
                parts.drop_first().take(1),
            ));
            assert(spec_join(parts.take(1)) == parts.take(1)[0]);
            assert(parts.take(1)[0] == parts[0]);
        } else {
            assert(spec_join(parts.take(i + 1)) == parts[0] + seq![COMMA] + spec_join(
                parts.drop_first().take(i),
            ));
            assert(spec_join(parts.drop_first().take(i)) == spec_join(
                parts.drop_first().take(i - 1),
            ) + seq![COMMA] + parts[i]);
            assert(spec_join(parts.take(i)) == parts[0] + seq![COMMA] + spec_join(
                parts.drop_first().take(i - 1),
            ));
            assert(parts[0] + seq![COMMA] + (spec_join(parts.drop_first().take(i - 1))
                + seq![COMMA] + parts[i]) =~= (parts[0] + seq![COMMA] + spec_join(
                parts.drop_first().take(i - 1),
            )) + seq![COMMA] + parts[i]);
        }
    }
}

/// Appends every byte of a piece.
fn push_all(out: &mut Vec<u8>, piece: &Vec<u8>)
    ensures
        final(out)@ == old(out)@ + piece@,
{
    let mut i: usize = 0;
    while i < piece.len()
        invariant
            0 <= i <= piece@.len(),
            out@.len() == old(out)@.len() + i,
            forall|k: int| 0 <= k < old(out)@.len() ==> #[trigger] out@[k] == old(out)@[k],
            forall|k: int|
                old(out)@.len() <= k < old(out)@.len() + i ==> #[trigger] out@[k] == piece@[k
                    - old(out)@.len()],
        decreases piece@.len() - i,
    {
        out.push(piece[i]);
        i += 1;
    }
    proof {
        assert(out@ =~= old(out)@ + piece@);
    }
}

/// Appends an opening bracket, the pieces joined by commas, and a
/// closing bracket.
fn push_joined(out: &mut Vec<u8>, parts: &Vec<Vec<u8>>)
    ensures
        final(out)@ == old(out)@ + spec_wrap(spec_join(spec_byte_lists(parts@))),
{
    let ghost toks = spec_byte_lists(parts@);
    out.push(OPEN_BRACKET);
    let ghost base = out@;
    let mut i: usize = 0;
    proof {
        assert(spec_join(toks.take(0)) =~= Seq::<u8>::empty());
        assert(base + Seq::<u8>::empty() =~= base);
    }
    while i < parts.len()
        invariant
            0 <= i <= parts@.len(),
            toks == spec_byte_lists(parts@),
            toks.len() == parts@.len(),
            base == old(out)@ + seq![OPEN_BRACKET],
            out@ == base + spec_join(toks.take(i as int)),
        decreases parts@.len() - i,
    {
        proof {
            lemma_join_snoc(toks, i as int);
            assert(toks[i as int] == parts@[i as int]@);
        }
        let ghost before = out@;
        if i > 0 {
            out.push(COMMA);
        }
        push_all(out, &parts[i]);
        proof {
            if i == 0 {
                assert(out@ =~= base + spec_join(toks.take(1)));
            } else {
                assert(out@ =~= before + seq![COMMA] + parts@[i as int]@);
                assert(base + (spec_join(toks.take(i as int)) + seq![COMMA] + toks[i as int])
                    =~= (base + spec_join(toks.take(i as int))) + seq![COMMA] + toks[i as int]);
                assert(out@ =~= base + spec_join(toks.take(i as int + 1)));
            }
        }
        i += 1;
    }
    out.push(CLOSE_BRACKET);
    proof {
        assert(toks.take(toks.len() as int) =~= toks);
        assert(out@ =~= old(out)@ + spec_wrap(spec_join(toks)));
    }
}

/// Renders a number as decimal digits, most significant first.
fn render_usize(n: usize) -> (r: Vec<u8>)
    ensures
        r@ == spec_render_usize(n as nat),
    decreases n,
{
    if n < 10 {
        let mut r: Vec<u8> = Vec::new();
        r.push(48 + (n as u8));
        proof {
            assert(r@ =~= spec_render_usize(n as nat));
        }
        r
    } else {
        let mut r: Vec<u8> = render_usize(n / 10);
        r.push(48 + ((n % 10) as u8));
        proof {
            assert(r@ =~= spec_render_usize((n / 10) as nat) + seq![
                (48 + (n as nat) % 10) as u8,
            ]);
            assert((n as nat) / 10 == ((n / 10) as nat));
        }
        r
    }
}

/// Renders one neuron group: its scalar literals, joined and wrapped.
fn render_neuron<O: ScalarOps>(row: &Vec<u64>) -> (r: Vec<u8>)
    ensures
        r@ == spec_render_neuron::<O>(row@),
{
    let mut parts: Vec<Vec<u8>> = Vec::new();
    let mut i: usize = 0;
    while i < row.len()
        invariant
            0 <= i <= row@.len(),
            parts@.len() == i,
            forall|k: int| 0 <= k < i ==> (#[trigger] parts@[k])@ == O::spec_render(row@[k]),
        decreases row@.len() - i,
    {
        parts.push(O::render(row[i]));
        i += 1;
    }
    proof {
        assert(spec_byte_lists(parts@) =~= spec_scalar_tokens::<O>(row@));
    }
    let mut out: Vec<u8> = Vec::new();
    push_joined(&mut out, &parts);
    proof {
        assert(Seq::<u8>::empty() + spec_wrap(spec_join(spec_scalar_tokens::<O>(row@)))
            =~= spec_wrap(spec_join(spec_scalar_tokens::<O>(row@))));
    }
    out
}

/// Renders one weights layer group: its neuron groups, joined and
/// wrapped.
fn render_layer<O: ScalarOps>(layer: &Vec<Vec<u64>>) -> (r: Vec<u8>)
    ensures
        r@ == spec_render_layer::<O>(spec_rows_view(layer@)),
{
    let mut parts: Vec<Vec<u8>> = Vec::new();
    let mut i: usize = 0;
    while i < layer.len()
        invariant
            0 <= i <= layer@.len(),
            parts@.len() == i,
            forall|k: int| 0 <= k < i ==> (#[trigger] parts@[k])@ == spec_render_neuron::<O>(
                layer@[k]@,
            ),
        decreases layer@.len() - i,
    {
        parts.push(render_neuron::<O>(&layer[i]));
        i += 1;
    }
    proof {
        assert(spec_byte_lists(parts@) =~= Seq::new(
            spec_rows_view(layer@).len(),
            |i: int| spec_render_neuron::<O>(spec_rows_view(layer@)[i]),
        ));
    }
    let mut out: Vec<u8> = Vec::new();
    push_joined(&mut out, &parts);
    proof {
        assert(Seq::<u8>::empty() + spec_render_layer::<O>(spec_rows_view(layer@))
            =~= spec_render_layer::<O>(spec_rows_view(layer@)));
    }
    out
}

/// Encodes a parameter document in the canonical form: the shape, the
/// weights and the biases as three bracketed sections separated by
/// commas, with no whitespace and no trailing commas.
pub fn write_neur_file<O: ScalarOps>(
    shape: &Vec<usize>,
    weights: &Vec<Vec<Vec<u64>>>,
    biases: &Vec<Vec<u64>>,
) -> (r: Vec<u8>)
    ensures
        r@ == spec_render_neur::<O>(shape@, spec_layers_view(weights@), spec_rows_view(biases@)),
{
    let mut shape_parts: Vec<Vec<u8>> = Vec::new();
    let mut i: usize = 0;
    while i < shape.len()
        invariant
            0 <= i <= shape@.len(),
            shape_parts@.len() == i,
            forall|k: int| 0 <= k < i ==> (#[trigger] shape_parts@[k])@ == spec_render_usize(
                shape@[k] as nat,
            ),
        decreases shape@.len() - i,
    {
        shape_parts.push(render_usize(shape[i]));
        i += 1;
    }
    proof {
        assert(spec_byte_lists(shape_parts@) =~= spec_shape_tokens(shape@));
    }
    let mut layer_parts: Vec<Vec<u8>> = Vec::new();
    let mut i: usize = 0;
    while i < weights.len()
        invariant
            0 <= i <= weights@.len(),
            layer_parts@.len() == i,
            forall|k: int| 0 <= k < i ==> (#[trigger] layer_parts@[k])@ == spec_render_layer::<O>(
                spec_rows_view(weights@[k]@),
            ),
        decreases weights@.len() - i,
    {
        layer_parts.push(render_layer::<O>(&weights[i]));
        i += 1;
    }
    proof {
        assert(spec_byte_lists(layer_parts@) =~= Seq::new(
            spec_layers_view(weights@).len(),
            |i: int| spec_render_layer::<O>(spec_layers_view(weights@)[i]),
        ));
    }
    let mut bias_parts: Vec<Vec<u8>> = Vec::new();
    let mut i: usize = 0;
    while i < biases.len()
        invariant
            0 <= i <= biases@.len(),
            bias_parts@.len() == i,
            forall|k: int| 0 <= k < i ==> (#[trigger] bias_parts@[k])@
                == spec_render_bias_layer::<O>(biases@[k]@),
        decreases biases@.len() - i,
    {
        bias_parts.push(render_neuron::<O>(&biases[i]));
        i += 1;
    }
    proof {
        assert(spec_byte_lists(bias_parts@) =~= Seq::new(
            spec_rows_view(biases@).len(),
            |i: int| spec_render_bias_layer::<O>(spec_rows_view(biases@)[i]),
        ));
    }
    let mut out: Vec<u8> = Vec::new();
    push_joined(&mut out, &shape_parts);
    out.push(COMMA);
    push_joined(&mut out, &layer_parts);
    out.push(COMMA);
    push_joined(&mut out, &bias_parts);
    proof {
        assert(out@ =~= spec_render_neur::<O>(
            shape@,
            spec_layers_view(weights@),
            spec_rows_view(biases@),
        ));
    }
    out
}

/// Whether every byte of a piece satisfies the given byte predicate.
pub open spec fn spec_all_bytes(s: Seq<u8>, pred: spec_fn(u8) -> bool) -> bool {
    forall|i: int| 0 <= i < s.len() ==> pred(#[trigger] s[i])
}

/// A byte that steers neither splitter and is not whitespace.
pub open spec fn spec_plain(c: u8) -> bool {
    c != OPEN_BRACKET && c != CLOSE_BRACKET && c != COMMA && c != SPACE && c != NEWLINE
}

/// A scalar whose rendered literal survives the trip: it is non-empty,
/// free of structural bytes and whitespace, and parses back to the same
/// scalar.
pub open spec fn spec_token_ok<O: ScalarOps>(x: u64) -> bool {
    &&& O::spec_render(x).len() > 0
    &&& spec_all_bytes(O::spec_render(x), |c: u8| spec_plain(c))
    &&& O::spec_parse(O::spec_render(x)) == Some(x)
}

/// A byte predicate that holds of two pieces holds of their
/// concatenation.
pub proof fn lemma_all_bytes_concat(a: Seq<u8>, b: Seq<u8>, pred: spec_fn(u8) -> bool)
    requires
        spec_all_bytes(a, pred),
        spec_all_bytes(b, pred),
    ensures
        spec_all_bytes(a + b, pred),
{
    assert forall|i: int| 0 <= i < (a + b).len() implies pred(#[trigger] (a + b)[i]) by {
        if i < a.len() {
            assert((a + b)[i] == a[i]);
        } else {
            assert((a + b)[i] == b[i - a.len()]);
        }
    }
}

/// A byte predicate that holds of the comma and of every piece holds of
/// their comma-joined concatenation.
pub proof fn lemma_join_all_bytes(parts: Seq<Seq<u8>>, pred: spec_fn(u8) -> bool)
    requires
        pred(COMMA),
        forall|i: int| 0 <= i < parts.len() ==> spec_all_bytes(#[trigger] parts[i], pred),
    ensures
        spec_all_bytes(spec_join(parts), pred),
    decreases parts.len(),
{
    if parts.len() == 0 {
    } else if parts.len() == 1 {
        assert(spec_all_bytes(parts[0], pred));
    } else {
        lemma_join_all_bytes(parts.drop_first(), pred);
        assert(spec_all_bytes(seq![COMMA], pred));
        lemma_all_bytes_concat(parts[0], seq![COMMA], pred);
        lemma_all_bytes_concat(parts[0] + seq![COMMA], spec_join(parts.drop_first()), pred);
    }
}

/// A byte predicate that holds of the brackets and of a piece holds of
/// the bracketed piece.
pub proof fn lemma_wrap_all_bytes(x: Seq<u8>, pred: spec_fn(u8) -> bool)
    requires
        pred(OPEN_BRACKET),
        pred(CLOSE_BRACKET),
        spec_all_bytes(x, pred),
    ensures
        spec_all_bytes(spec_wrap(x), pred),
{
    lemma_all_bytes_concat(seq![OPEN_BRACKET], x, pred);
    lemma_all_bytes_concat(seq![OPEN_BRACKET] + x, seq![CLOSE_BRACKET], pred);
}

/// The bracket balance of a piece: opens minus closes.
pub open spec fn spec_depth_delta(s: Seq<u8>) -> int
    decreases s.len(),
{
    if s.len() == 0 {
        0
    } else {
        let d: int = if s[0] == OPEN_BRACKET {
            1
        } else if s[0] == CLOSE_BRACKET {
            -1
        } else {
            0
        };
        d + spec_depth_delta(s.drop_first())
    }
}

/// Whether walking the piece from the given depth never closes the
/// group open at depth one.
pub open spec fn spec_stays_in(s: Seq<u8>, depth: int) -> bool
    decreases s.len(),
{
    if s.len() == 0 {
        true
    } else if s[0] == CLOSE_BRACKET {
        depth - 1 >= 1 && spec_stays_in(s.drop_first(), depth - 1)
    } else if s[0] == OPEN_BRACKET {
        spec_stays_in(s.drop_first(), depth + 1)
    } else {
        spec_stays_in(s.drop_first(), depth)
    }
}

/// Staying inside is preserved when the walk starts deeper.
pub proof fn lemma_stays_in_mono(s: Seq<u8>, d1: int, d2: int)
    requires
        spec_stays_in(s, d1),
        d1 <= d2,
    ensures
        spec_stays_in(s, d2),
    decreases s.len(),
{
    if s.len() > 0 {
        if s[0] == CLOSE_BRACKET {
            lemma_stays_in_mono(s.drop_first(), d1 - 1, d2 - 1);
        } else if s[0] == OPEN_BRACKET {
            lemma_stays_in_mono(s.drop_first(), d1 + 1, d2 + 1);
        } else {
            lemma_stays_in_mono(s.drop_first(), d1, d2);
        }
    }
}

/// Concatenation walks the first piece and then the second from the
/// depth the first one reaches.
pub proof fn lemma_stays_in_concat(a: Seq<u8>, b: Seq<u8>, d: int)
    requires
        spec_stays_in(a, d),
        spec_stays_in(b, d + spec_depth_delta(a)),
    ensures
        spec_stays_in(a + b, d),
        spec_depth_delta(a + b) == spec_depth_delta(a) + spec_depth_delta(b),
    decreases a.len(),
{
    if a.len() == 0 {
        assert(a + b =~= b);
    } else {
        assert((a + b).drop_first() =~= a.drop_first() + b);
        assert((a + b)[0] == a[0]);
        if a[0] == CLOSE_BRACKET {
            lemma_stays_in_concat(a.drop_first(), b, d - 1);
        } else if a[0] == OPEN_BRACKET {
            lemma_stays_in_concat(a.drop_first(), b, d + 1);
        } else {
            lemma_stays_in_concat(a.drop_first(), b, d);
        }
    }
}

/// A piece with no brackets keeps any positive depth and has balance
/// zero.
pub proof fn lemma_bracket_free_stays(s: Seq<u8>, d: int)
    requires
        forall|i: int| 0 <= i < s.len() ==> #[trigger] s[i] != OPEN_BRACKET && s[i]
            != CLOSE_BRACKET,
        d >= 1,
    ensures
        spec_stays_in(s, d),
        spec_depth_delta(s) == 0,
    decreases s.len(),
{
    if s.len() > 0 {
        lemma_bracket_free_stays(s.drop_first(), d);
    }
}

/// A bracketed piece that stays inside from depth one keeps any positive
/// depth and has balance zero.
pub proof fn lemma_wrap_stays(x: Seq<u8>, d: int)
    requires
        spec_stays_in(x, 1),
        spec_depth_delta(x) == 0,
        d >= 1,
    ensures
        spec_stays_in(spec_wrap(x), d),
        spec_depth_delta(spec_wrap(x)) == 0,
{
    lemma_stays_in_mono(x, 1, d + 1);
    assert(spec_stays_in(seq![CLOSE_BRACKET], d + 1)) by {
        assert(seq![CLOSE_BRACKET][0] == CLOSE_BRACKET);
        assert(seq![CLOSE_BRACKET].drop_first() =~= Seq::<u8>::empty());
        assert(spec_stays_in(Seq::<u8>::empty(), d));
    }
    lemma_stays_in_concat(x, seq![CLOSE_BRACKET], d + 1);
    assert(spec_depth_delta(seq![CLOSE_BRACKET]) == -1) by {
        assert(seq![CLOSE_BRACKET][0] == CLOSE_BRACKET);
        assert(seq![CLOSE_BRACKET].drop_first() =~= Seq::<u8>::empty());
        assert(spec_depth_delta(Seq::<u8>::empty()) == 0);
    }
    assert(spec_stays_in(seq![OPEN_BRACKET] + (x + seq![CLOSE_BRACKET]), d)) by {
        assert((seq![OPEN_BRACKET] + (x + seq![CLOSE_BRACKET])).drop_first() =~= x + seq![
            CLOSE_BRACKET,
        ]);
        assert((seq![OPEN_BRACKET] + (x + seq![CLOSE_BRACKET]))[0] == OPEN_BRACKET);
    }
    assert(spec_depth_delta(seq![OPEN_BRACKET] + (x + seq![CLOSE_BRACKET])) == 0) by {
        assert((seq![OPEN_BRACKET] + (x + seq![CLOSE_BRACKET])).drop_first() =~= x + seq![
            CLOSE_BRACKET,
        ]);
        assert((seq![OPEN_BRACKET] + (x + seq![CLOSE_BRACKET]))[0] == OPEN_BRACKET);
    }
    assert(spec_wrap(x) =~= seq![OPEN_BRACKET] + (x + seq![CLOSE_BRACKET]));
}

/// Each piece wrapped in one pair of brackets.
pub open spec fn spec_wrap_each(xs: Seq<Seq<u8>>) -> Seq<Seq<u8>> {
    Seq::new(xs.len(), |i: int| spec_wrap(xs[i]))
}

/// A comma-joined list of bracketed safe pieces keeps any positive depth
/// and has balance zero.
pub proof fn lemma_join_wrapped_stays(xs: Seq<Seq<u8>>, d: int)
    requires
        forall|i: int| 0 <= i < xs.len() ==> spec_stays_in(#[trigger] xs[i], 1)
            && spec_depth_delta(xs[i]) == 0,
        d >= 1,
    ensures
        spec_stays_in(spec_join(spec_wrap_each(xs)), d),
        spec_depth_delta(spec_join(spec_wrap_each(xs))) == 0,
    decreases xs.len(),
{
    let parts = spec_wrap_each(xs);
    if xs.len() == 0 {
    } else if xs.len() == 1 {
        assert(parts[0] == spec_wrap(xs[0]));
        lemma_wrap_stays(xs[0], d);
        assert(spec_join(parts) == parts[0]);
    } else {
        assert(spec_wrap_each(xs.drop_first()) =~= parts.drop_first());
        lemma_join_wrapped_stays(xs.drop_first(), d);
        lemma_wrap_stays(xs[0], d);
        assert(spec_stays_in(seq![COMMA], d)) by {
            assert(seq![COMMA][0] == COMMA);
            assert(seq![COMMA].drop_first() =~= Seq::<u8>::empty());
            assert(spec_stays_in(Seq::<u8>::empty(), d));
        }
        assert(spec_depth_delta(seq![COMMA]) == 0) by {
            assert(seq![COMMA][0] == COMMA);
            assert(seq![COMMA].drop_first() =~= Seq::<u8>::empty());
            assert(spec_depth_delta(Seq::<u8>::empty()) == 0);
        }
        lemma_stays_in_concat(parts[0], seq![COMMA], d);
        lemma_stays_in_concat(parts[0] + seq![COMMA], spec_join(parts.drop_first()), d);
        assert(spec_join(parts) == parts[0] + seq![COMMA] + spec_join(parts.drop_first()));
    }
}

/// Walking a safe piece from inside a group appends it to the buffer and
/// moves the depth by its balance.
pub proof fn lemma_groups_pass(x: Seq<u8>, r: Seq<u8>, d: int, buf: Seq<u8>, acc: Seq<Seq<u8>>)
    requires
        d >= 1,
        spec_stays_in(x, d),
    ensures
        spec_groups(x + r, d, buf, acc) == spec_groups(r, d + spec_depth_delta(x), buf + x, acc),
    decreases x.len(),
{
    if x.len() == 0 {
        assert(x + r =~= r);
        assert(buf + x =~= buf);
    } else {
        let c = x[0];
        assert((x + r).drop_first() =~= x.drop_first() + r);
        assert((x + r)[0] == c);
        assert(buf.push(c) + x.drop_first() =~= buf + x);
        if c == CLOSE_BRACKET {
            lemma_groups_pass(x.drop_first(), r, d - 1, buf.push(c), acc);
        } else if c == OPEN_BRACKET {
            lemma_groups_pass(x.drop_first(), r, d + 1, buf.push(c), acc);
        } else {
            lemma_groups_pass(x.drop_first(), r, d, buf.push(c), acc);
        }
    }
}

/// Walking one bracketed group from the top level collects its content
/// and continues after it at the top level.
pub proof fn lemma_groups_group(x: Seq<u8>, r: Seq<u8>, buf: Seq<u8>, acc: Seq<Seq<u8>>)
    requires
        spec_stays_in(x, 1),
        spec_depth_delta(x) == 0,
    ensures
        spec_groups(spec_wrap(x) + r, 0, buf, acc) == spec_groups(r, 0, x, acc.push(x)),
{
    let after_open = x + (seq![CLOSE_BRACKET] + r);
    assert(spec_wrap(x) + r =~= seq![OPEN_BRACKET] + after_open);
    assert((seq![OPEN_BRACKET] + after_open)[0] == OPEN_BRACKET);
    assert((seq![OPEN_BRACKET] + after_open).drop_first() =~= after_open);
    assert(spec_groups(spec_wrap(x) + r, 0, buf, acc) == spec_groups(
        after_open,
        1,
        Seq::empty(),
        acc,
    ));
    lemma_groups_pass(x, seq![CLOSE_BRACKET] + r, 1, Seq::empty(), acc);
    assert(Seq::<u8>::empty() + x =~= x);
    assert((seq![CLOSE_BRACKET] + r)[0] == CLOSE_BRACKET);
    assert((seq![CLOSE_BRACKET] + r).drop_first() =~= r);
    assert(spec_groups(seq![CLOSE_BRACKET] + r, 1, x, acc) == spec_groups(r, 0, x, acc.push(x)));
}

/// Walking a comma-joined list of bracketed safe pieces from the top
/// level collects exactly their contents, in order.
pub proof fn lemma_groups_of_join(xs: Seq<Seq<u8>>, r: Seq<u8>, buf: Seq<u8>, acc: Seq<Seq<u8>>)
    requires
        forall|i: int| 0 <= i < xs.len() ==> spec_stays_in(#[trigger] xs[i], 1)
            && spec_depth_delta(xs[i]) == 0,
    ensures
        spec_groups(spec_join(spec_wrap_each(xs)) + r, 0, buf, acc) == spec_groups(
            r,
            0,
            if xs.len() == 0 {
                buf
            } else {
                xs.last()
            },
            acc + xs,
        ),
    decreases xs.len(),
{
    let parts = spec_wrap_each(xs);
    if xs.len() == 0 {
        assert(spec_join(parts) + r =~= r);
        assert(acc + xs =~= acc);
    } else if xs.len() == 1 {
        assert(spec_join(parts) == parts[0]);
        assert(parts[0] == spec_wrap(xs[0]));
        lemma_groups_group(xs[0], r, buf, acc);
        assert(acc.push(xs[0]) =~= acc + xs);
    } else {
        assert(spec_join(parts) == parts[0] + seq![COMMA] + spec_join(parts.drop_first()));
        let tail = spec_join(parts.drop_first());
        assert(parts[0] + seq![COMMA] + tail + r =~= spec_wrap(xs[0]) + (seq![COMMA] + (tail
            + r)));
        lemma_groups_group(xs[0], seq![COMMA] + (tail + r), buf, acc);
        assert((seq![COMMA] + (tail + r))[0] == COMMA);
        assert((seq![COMMA] + (tail + r)).drop_first() =~= tail + r);
        assert(spec_groups(seq![COMMA] + (tail + r), 0, xs[0], acc.push(xs[0])) == spec_groups(
            tail + r,
            0,
            xs[0].push(COMMA),
            acc.push(xs[0]),
        ));
        assert(spec_wrap_each(xs.drop_first()) =~= parts.drop_first());
        lemma_groups_of_join(xs.drop_first(), r, xs[0].push(COMMA), acc.push(xs[0]));
        assert(acc.push(xs[0]) + xs.drop_first() =~= acc + xs);
        assert(xs.drop_first().last() == xs.last());
    }
}

/// Walking a comma-free piece appends it to the item buffer.
pub proof fn lemma_items_token(t: Seq<u8>, r: Seq<u8>, buf: Seq<u8>, acc: Seq<Seq<u8>>)
    requires
        forall|i: int| 0 <= i < t.len() ==> #[trigger] t[i] != COMMA,
    ensures
        spec_items(t + r, buf, acc) == spec_items(r, buf + t, acc),
    decreases t.len(),
{
    if t.len() == 0 {
        assert(t + r =~= r);
        assert(buf + t =~= buf);
    } else {
        assert((t + r).drop_first() =~= t.drop_first() + r);
        assert((t + r)[0] == t[0]);
        assert(buf.push(t[0]) + t.drop_first() =~= buf + t);
        lemma_items_token(t.drop_first(), r, buf.push(t[0]), acc);
    }
}

/// Splitting a comma-joined list of non-empty comma-free pieces gives
/// exactly the pieces, in order.
pub proof fn lemma_items_of_join(ts: Seq<Seq<u8>>, acc: Seq<Seq<u8>>)
    requires
        forall|i: int| 0 <= i < ts.len() ==> (#[trigger] ts[i]).len() > 0,
        forall|i: int, j: int| 0 <= i < ts.len() && 0 <= j < ts[i].len() ==> #[trigger] ts[i][j]
            != COMMA,
    ensures
        spec_items(spec_join(ts), Seq::empty(), acc) == acc + ts,
    decreases ts.len(),
{
    if ts.len() == 0 {
        assert(acc + ts =~= acc);
    } else if ts.len() == 1 {
        assert(spec_join(ts) == ts[0]);
        assert(ts[0] + Seq::<u8>::empty() =~= ts[0]);
        lemma_items_token(ts[0], Seq::empty(), Seq::empty(), acc);
        assert(Seq::<u8>::empty() + ts[0] =~= ts[0]);
        assert(acc.push(ts[0]) =~= acc + ts);
    } else {
        let tail = spec_join(ts.drop_first());
        assert(spec_join(ts) == ts[0] + seq![COMMA] + tail);
        assert(ts[0] + seq![COMMA] + tail =~= ts[0] + (seq![COMMA] + tail));
        lemma_items_token(ts[0], seq![COMMA] + tail, Seq::empty(), acc);
        assert(Seq::<u8>::empty() + ts[0] =~= ts[0]);
        assert((seq![COMMA] + tail)[0] == COMMA);
        assert((seq![COMMA] + tail).drop_first() =~= tail);
        lemma_items_of_join(ts.drop_first(), acc.push(ts[0]));
        assert(acc.push(ts[0]) + ts.drop_first() =~= acc + ts);
    }
}

/// The rendered digits of a number are digits, are not structural bytes,
/// and denote the number.
pub proof fn lemma_render_usize_facts(n: nat)
    ensures
        spec_render_usize(n).len() > 0,
        spec_all_digits(spec_render_usize(n)),
        spec_all_bytes(spec_render_usize(n), |c: u8| spec_plain(c)),
        spec_digits_val(spec_render_usize(n)) == n,
    decreases n,
{
    if n < 10 {
        let t = spec_render_usize(n);
        assert(t =~= seq![(48 + n) as u8]);
        assert(t.drop_last() =~= Seq::<u8>::empty());
        assert(spec_digits_val(Seq::<u8>::empty()) == 0);
        assert(t.last() == (48 + n) as u8);
        assert((48 + n) as u8 == 48 + n);
        assert(spec_digits_val(t) == spec_digits_val(t.drop_last()) * 10 + (t.last() - 48));
    } else {
        lemma_render_usize_facts(n / 10);
        let hd = spec_render_usize(n / 10);
        let t = spec_render_usize(n);
        assert(t == hd + seq![(48 + n % 10) as u8]);
        assert(t.drop_last() =~= hd);
        assert(t.last() == (48 + n % 10) as u8);
        assert(spec_all_digits(t)) by {
            assert forall|i: int| 0 <= i < t.len() implies 48 <= #[trigger] t[i] <= 57 by {
                if i < hd.len() {
                    assert(t[i] == hd[i]);
                } else {
                    assert(t[i] == (48 + n % 10) as u8);
                }
            }
        }
        assert(spec_all_bytes(t, |c: u8| spec_plain(c))) by {
            lemma_all_bytes_concat(hd, seq![(48 + n % 10) as u8], |c: u8| spec_plain(c));
        }
        assert(n / 10 * 10 + n % 10 == n) by (nonlinear_arith);
        assert(spec_digits_val(t) == spec_digits_val(hd) * 10 + ((48 + n % 10) as u8 - 48));
    }
}

/// Reading back a rendered number gives the number.
pub proof fn lemma_parse_render_usize(n: usize)
    ensures
        spec_parse_usize(spec_render_usize(n as nat)) == Some(n),
{
    lemma_render_usize_facts(n as nat);
}

/// Reading back the rendered shape pieces gives the shape.
pub proof fn lemma_parse_usizes_of_tokens(shape: Seq<usize>)
    ensures
        spec_parse_usizes(spec_shape_tokens(shape)) == Some(shape),
    decreases shape.len(),
{
    let toks = spec_shape_tokens(shape);
    if shape.len() == 0 {
        assert(shape =~= Seq::<usize>::empty());
    } else {
        lemma_parse_render_usize(shape[0]);
        assert(toks[0] == spec_render_usize(shape[0] as nat));
        assert(toks.drop_first() =~= spec_shape_tokens(shape.drop_first()));
        lemma_parse_usizes_of_tokens(shape.drop_first());
        assert(seq![shape[0]] + shape.drop_first() =~= shape);
    }
}

/// Reading back the rendered literals of a row gives the row.
pub proof fn lemma_parse_scalars_of_tokens<O: ScalarOps>(row: Seq<u64>)
    requires
        forall|i: int| 0 <= i < row.len() ==> spec_token_ok::<O>(#[trigger] row[i]),
    ensures
        spec_parse_scalars::<O>(spec_scalar_tokens::<O>(row)) == Some(row),
    decreases row.len(),
{
    let toks = spec_scalar_tokens::<O>(row);
    if row.len() == 0 {
        assert(row =~= Seq::<u64>::empty());
    } else {
        assert(toks[0] == O::spec_render(row[0]));
        assert(toks.drop_first() =~= spec_scalar_tokens::<O>(row.drop_first()));
        lemma_parse_scalars_of_tokens::<O>(row.drop_first());
        assert(seq![row[0]] + row.drop_first() =~= row);
    }
}

/// The facts about one row's joined literals: no structural bytes, and
/// the comma-separated pieces read back to the row.
pub proof fn lemma_row_content_facts<O: ScalarOps>(row: Seq<u64>)
    requires
        forall|i: int| 0 <= i < row.len() ==> spec_token_ok::<O>(#[trigger] row[i]),
    ensures
        spec_all_bytes(
            spec_join(spec_scalar_tokens::<O>(row)),
            |c: u8| c == COMMA || spec_plain(c),
        ),
        spec_stays_in(spec_join(spec_scalar_tokens::<O>(row)), 1),
        spec_depth_delta(spec_join(spec_scalar_tokens::<O>(row))) == 0,
        spec_parse_scalars::<O>(
            spec_items(spec_join(spec_scalar_tokens::<O>(row)), Seq::empty(), Seq::empty()),
        ) == Some(row),
{
    let toks = spec_scalar_tokens::<O>(row);
    let content = spec_join(toks);
    assert forall|i: int| 0 <= i < toks.len() implies spec_all_bytes(
        #[trigger] toks[i],
        |c: u8| c == COMMA || spec_plain(c),
    ) by {
        assert(toks[i] == O::spec_render(row[i]));
        assert(spec_all_bytes(O::spec_render(row[i]), |c: u8| spec_plain(c)));
        assert forall|j: int| 0 <= j < toks[i].len() implies (|c: u8| c == COMMA || spec_plain(c))(
            #[trigger] toks[i][j],
        ) by {
            assert(spec_plain(O::spec_render(row[i])[j]));
        }
    }
    lemma_join_all_bytes(toks, |c: u8| c == COMMA || spec_plain(c));
    lemma_bracket_free_stays(content, 1);
    lemma_items_of_join(toks, Seq::empty());
    assert(Seq::<Seq<u8>>::empty() + toks =~= toks);
    lemma_parse_scalars_of_tokens::<O>(row);
}

/// A byte the canonical document may hold: one of the three structural
/// bytes, or a plain literal byte.
pub open spec fn spec_doc_byte(c: u8) -> bool {
    c == OPEN_BRACKET || c == CLOSE_BRACKET || c == COMMA || spec_plain(c)
}

/// The unwrapped content of each neuron group of a layer.
pub open spec fn spec_neuron_contents<O: ScalarOps>(layer: Seq<Seq<u64>>) -> Seq<Seq<u8>> {
    Seq::new(layer.len(), |n: int| spec_join(spec_scalar_tokens::<O>(layer[n])))
}

/// The unwrapped content of each layer group of the weights section.
pub open spec fn spec_layer_contents<O: ScalarOps>(weights: Seq<Seq<Seq<u64>>>) -> Seq<Seq<u8>> {
    Seq::new(
        weights.len(),
        |l: int| spec_join(spec_wrap_each(spec_neuron_contents::<O>(weights[l]))),
    )
}

/// The unwrapped content of each layer group of the biases section.
pub open spec fn spec_bias_contents<O: ScalarOps>(biases: Seq<Seq<u64>>) -> Seq<Seq<u8>> {
    Seq::new(biases.len(), |l: int| spec_join(spec_scalar_tokens::<O>(biases[l])))
}

/// A row's joined literals hold only document bytes.
pub proof fn lemma_row_doc_bytes<O: ScalarOps>(row: Seq<u64>)
    requires
        forall|i: int| 0 <= i < row.len() ==> spec_token_ok::<O>(#[trigger] row[i]),
    ensures
        spec_all_bytes(spec_join(spec_scalar_tokens::<O>(row)), |c: u8| spec_doc_byte(c)),
{
    let content = spec_join(spec_scalar_tokens::<O>(row));
    lemma_row_content_facts::<O>(row);
    assert forall|i: int| 0 <= i < content.len() implies (|c: u8| spec_doc_byte(c))(
        #[trigger] content[i],
    ) by {
        assert((|c: u8| c == COMMA || spec_plain(c))(content[i]));
    }
}

/// One layer's content: it is safe inside one pair of brackets and its
/// neuron groups read back to the layer's rows.
pub proof fn lemma_layer_facts<O: ScalarOps>(layer: Seq<Seq<u64>>)
    requires
        forall|n: int, w: int|
            0 <= n < layer.len() && 0 <= w < layer[n].len() ==> spec_token_ok::<O>(
                #[trigger] layer[n][w],
            ),
    ensures
        spec_stays_in(spec_join(spec_wrap_each(spec_neuron_contents::<O>(layer))), 1),
        spec_depth_delta(spec_join(spec_wrap_each(spec_neuron_contents::<O>(layer)))) == 0,
        spec_all_bytes(
            spec_join(spec_wrap_each(spec_neuron_contents::<O>(layer))),
            |c: u8| spec_doc_byte(c),
        ),
        spec_parse_neurons::<O>(
            spec_groups(
                spec_join(spec_wrap_each(spec_neuron_contents::<O>(layer))),
                0,
                Seq::empty(),
                Seq::empty(),
            ),
        ) == Some(layer),
    decreases layer.len(),
{
    let ncontents = spec_neuron_contents::<O>(layer);
    assert forall|n: int| 0 <= n < ncontents.len() implies spec_stays_in(#[trigger] ncontents[n], 1)
        && spec_depth_delta(ncontents[n]) == 0 by {
        assert(forall|w: int| 0 <= w < layer[n].len() ==> spec_token_ok::<O>(
            #[trigger] layer[n][w],
        ));
        lemma_row_content_facts::<O>(layer[n]);
    }
    lemma_join_wrapped_stays(ncontents, 1);
    assert forall|n: int| 0 <= n < ncontents.len() implies spec_all_bytes(
        spec_wrap_each(ncontents)[n],
        |c: u8| spec_doc_byte(c),
    ) by {
        lemma_row_doc_bytes::<O>(layer[n]);
        assert(spec_wrap_each(ncontents)[n] == spec_wrap(ncontents[n]));
        lemma_wrap_all_bytes(ncontents[n], |c: u8| spec_doc_byte(c));
    }
    lemma_join_all_bytes(spec_wrap_each(ncontents), |c: u8| spec_doc_byte(c));
    let content = spec_join(spec_wrap_each(ncontents));
    lemma_groups_of_join(ncontents, Seq::empty(), Seq::empty(), Seq::empty());
    assert(content + Seq::<u8>::empty() =~= content);
    assert(Seq::<Seq<u8>>::empty() + ncontents =~= ncontents);
    assert(spec_groups(content, 0, Seq::empty(), Seq::empty()) == ncontents);
    lemma_parse_neurons_of_contents::<O>(layer);
}

/// The neuron groups of a layer read back to the layer's rows, in order.
pub proof fn lemma_parse_neurons_of_contents<O: ScalarOps>(layer: Seq<Seq<u64>>)
    requires
        forall|n: int, w: int|
            0 <= n < layer.len() && 0 <= w < layer[n].len() ==> spec_token_ok::<O>(
                #[trigger] layer[n][w],
            ),
    ensures
        spec_parse_neurons::<O>(spec_neuron_contents::<O>(layer)) == Some(layer),
    decreases layer.len(),
{
    let ncontents = spec_neuron_contents::<O>(layer);
    if layer.len() == 0 {
        assert(layer =~= Seq::<Seq<u64>>::empty());
    } else {
        assert(forall|w: int| 0 <= w < layer[0].len() ==> spec_token_ok::<O>(
            #[trigger] layer[0][w],
        ));
        lemma_row_content_facts::<O>(layer[0]);
        assert(spec_parse_neuron::<O>(ncontents[0]) == Some(layer[0]));
        assert(ncontents.drop_first() =~= spec_neuron_contents::<O>(layer.drop_first()));
        lemma_parse_neurons_of_contents::<O>(layer.drop_first());
        assert(seq![layer[0]] + layer.drop_first() =~= layer);
    }
}

/// The layer groups of the weights section read back to the layers, in
/// order.
pub proof fn lemma_parse_layers_of_contents<O: ScalarOps>(weights: Seq<Seq<Seq<u64>>>)
    requires
        forall|l: int, n: int, w: int|
            0 <= l < weights.len() && 0 <= n < weights[l].len() && 0 <= w < weights[l][n].len()
                ==> spec_token_ok::<O>(#[trigger] weights[l][n][w]),
    ensures
        spec_parse_layers::<O>(spec_layer_contents::<O>(weights)) == Some(weights),
    decreases weights.len(),
{
    let lcontents = spec_layer_contents::<O>(weights);
    if weights.len() == 0 {
        assert(weights =~= Seq::<Seq<Seq<u64>>>::empty());
    } else {
        assert(forall|n: int, w: int|
            0 <= n < weights[0].len() && 0 <= w < weights[0][n].len() ==> spec_token_ok::<O>(
                #[trigger] weights[0][n][w],
            ));
        lemma_layer_facts::<O>(weights[0]);
        assert(lcontents[0] == spec_join(spec_wrap_each(spec_neuron_contents::<O>(weights[0]))));
        assert(lcontents.drop_first() =~= spec_layer_contents::<O>(weights.drop_first()));
        lemma_parse_layers_of_contents::<O>(weights.drop_first());
        assert(seq![weights[0]] + weights.drop_first() =~= weights);
    }
}

/// The layer groups of the biases section read back to the bias rows, in
/// order.
pub proof fn lemma_parse_biases_of_contents<O: ScalarOps>(biases: Seq<Seq<u64>>)
    requires
        forall|l: int, n: int|
            0 <= l < biases.len() && 0 <= n < biases[l].len() ==> spec_token_ok::<O>(
                #[trigger] biases[l][n],
            ),
    ensures
        spec_parse_bias_layers::<O>(spec_bias_contents::<O>(biases)) == Some(biases),
    decreases biases.len(),
{
    let bcontents = spec_bias_contents::<O>(biases);
    if biases.len() == 0 {
        assert(biases =~= Seq::<Seq<u64>>::empty());
    } else {
        assert(forall|n: int| 0 <= n < biases[0].len() ==> spec_token_ok::<O>(
            #[trigger] biases[0][n],
        ));
        lemma_row_content_facts::<O>(biases[0]);
        assert(bcontents.drop_first() =~= spec_bias_contents::<O>(biases.drop_first()));
        lemma_parse_biases_of_contents::<O>(biases.drop_first());
        assert(seq![biases[0]] + biases.drop_first() =~= biases);
    }
}

/// A document of document bytes holds no whitespace, so stripping leaves
/// it unchanged.
pub proof fn lemma_strip_ws_id(s: Seq<u8>)
    requires
        spec_all_bytes(s, |c: u8| spec_doc_byte(c)),
    ensures
        spec_strip_ws(s) == s,
    decreases s.len(),
{
    if s.len() > 0 {
        assert((|c: u8| spec_doc_byte(c))(s[0]));
        assert(spec_all_bytes(s.drop_first(), |c: u8| spec_doc_byte(c))) by {
            assert forall|i: int| 0 <= i < s.drop_first().len() implies (|c: u8| spec_doc_byte(c))(
                #[trigger] s.drop_first()[i],
            ) by {
                assert(s.drop_first()[i] == s[i + 1]);
            }
        }
        lemma_strip_ws_id(s.drop_first());
        assert(seq![s[0]] + s.drop_first() =~= s);
    }
}

/// Round trip of the text format: parsing the canonical rendering of a
/// shape with its weights and biases gives the three sections back
/// exactly, provided every scalar literal survives the trip (it is
/// non-empty, free of structural bytes, and reads back to its scalar).
pub proof fn lemma_neur_round_trip<O: ScalarOps>(
    shape: Seq<usize>,
    weights: Seq<Seq<Seq<u64>>>,
    biases: Seq<Seq<u64>>,
)
    requires
        forall|l: int, n: int, w: int|
            0 <= l < weights.len() && 0 <= n < weights[l].len() && 0 <= w < weights[l][n].len()
                ==> spec_token_ok::<O>(#[trigger] weights[l][n][w]),
        forall|l: int, n: int|
            0 <= l < biases.len() && 0 <= n < biases[l].len() ==> spec_token_ok::<O>(
                #[trigger] biases[l][n],
            ),
    ensures
        spec_parse_neur::<O>(spec_render_neur::<O>(shape, weights, biases)) == Ok::<_, NeurError>(
            (shape, weights, biases),
        ),
{
    let s_content = spec_join(spec_shape_tokens(shape));
    let w_content = spec_join(
        Seq::new(weights.len(), |i: int| spec_render_layer::<O>(weights[i])),
    );
    let b_content = spec_join(
        Seq::new(biases.len(), |i: int| spec_render_bias_layer::<O>(biases[i])),
    );
    let doc = spec_render_neur::<O>(shape, weights, biases);
    let sections = seq![s_content, w_content, b_content];

    // The shape section: digit pieces joined by commas.
    assert forall|i: int| 0 <= i < spec_shape_tokens(shape).len() implies spec_all_bytes(
        #[trigger] spec_shape_tokens(shape)[i],
        |c: u8| spec_plain(c),
    ) && spec_shape_tokens(shape)[i].len() > 0 by {
        lemma_render_usize_facts(shape[i] as nat);
    }
    assert forall|i: int| 0 <= i < spec_shape_tokens(shape).len() implies spec_all_bytes(
        #[trigger] spec_shape_tokens(shape)[i],
        |c: u8| spec_doc_byte(c),
    ) by {
        assert forall|j: int| 0 <= j < spec_shape_tokens(shape)[i].len() implies (|c: u8|
            spec_doc_byte(c))(#[trigger] spec_shape_tokens(shape)[i][j]) by {
            assert((|c: u8| spec_plain(c))(spec_shape_tokens(shape)[i][j]));
        }
    }
    lemma_join_all_bytes(spec_shape_tokens(shape), |c: u8| spec_doc_byte(c));
    assert forall|i: int| 0 <= i < s_content.len() implies #[trigger] s_content[i] != OPEN_BRACKET
        && s_content[i] != CLOSE_BRACKET by {
        assert((|c: u8| spec_doc_byte(c))(s_content[i]));
        let toks = spec_shape_tokens(shape);
        lemma_join_all_bytes(toks, |c: u8| c == COMMA || spec_plain(c));
        assert((|c: u8| c == COMMA || spec_plain(c))(s_content[i]));
    }
    lemma_bracket_free_stays(s_content, 1);

    // The weights section: one bracketed group per layer.
    assert forall|l: int| 0 <= l < weights.len() implies Seq::new(
        weights.len(),
        |i: int| spec_render_layer::<O>(weights[i]),
    )[l] == spec_wrap_each(spec_layer_contents::<O>(weights))[l] by {
        assert(Seq::new(weights[l].len(), |i: int| spec_render_neuron::<O>(weights[l][i]))
            =~= spec_wrap_each(spec_neuron_contents::<O>(weights[l])));
    }
    assert(Seq::new(weights.len(), |i: int| spec_render_layer::<O>(weights[i]))
        =~= spec_wrap_each(spec_layer_contents::<O>(weights)));
    assert forall|l: int| 0 <= l < spec_layer_contents::<O>(weights).len() implies spec_stays_in(
        #[trigger] spec_layer_contents::<O>(weights)[l],
        1,
    ) && spec_depth_delta(spec_layer_contents::<O>(weights)[l]) == 0 && spec_all_bytes(
        spec_layer_contents::<O>(weights)[l],
        |c: u8| spec_doc_byte(c),
    ) by {
        assert(forall|n: int, w: int|
            0 <= n < weights[l].len() && 0 <= w < weights[l][n].len() ==> spec_token_ok::<O>(
                #[trigger] weights[l][n][w],
            ));
        lemma_layer_facts::<O>(weights[l]);
    }
    lemma_join_wrapped_stays(spec_layer_contents::<O>(weights), 1);

    // The biases section: one bracketed group per layer.
    assert(Seq::new(biases.len(), |i: int| spec_render_bias_layer::<O>(biases[i]))
        =~= spec_wrap_each(spec_bias_contents::<O>(biases)));
    assert forall|l: int| 0 <= l < spec_bias_contents::<O>(biases).len() implies spec_stays_in(
        #[trigger] spec_bias_contents::<O>(biases)[l],
        1,
    ) && spec_depth_delta(spec_bias_contents::<O>(biases)[l]) == 0 && spec_all_bytes(
        spec_bias_contents::<O>(biases)[l],
        |c: u8| spec_doc_byte(c),
    ) by {
        assert(forall|n: int| 0 <= n < biases[l].len() ==> spec_token_ok::<O>(
            #[trigger] biases[l][n],
        ));
        lemma_row_content_facts::<O>(biases[l]);
        lemma_row_doc_bytes::<O>(biases[l]);
    }
    lemma_join_wrapped_stays(spec_bias_contents::<O>(biases), 1);

    // The document is the comma-joined list of the three wrapped
    // sections.
    let parts3 = spec_wrap_each(sections);
    let parts2 = spec_wrap_each(seq![w_content, b_content]);
    let parts1 = spec_wrap_each(seq![b_content]);
    assert(parts3.len() == 3);
    assert(parts3[0] == spec_wrap(s_content));
    assert(parts3.drop_first() =~= parts2);
    assert(parts2.len() == 2);
    assert(parts2[0] == spec_wrap(w_content));
    assert(parts2.drop_first() =~= parts1);
    assert(parts1.len() == 1);
    assert(parts1[0] == spec_wrap(b_content));
    assert(spec_join(parts1) == spec_wrap(b_content));
    assert(spec_join(parts2) == parts2[0] + seq![COMMA] + spec_join(parts2.drop_first()));
    assert(spec_join(parts3) == parts3[0] + seq![COMMA] + spec_join(parts3.drop_first()));
    assert(doc =~= spec_join(parts3));

    // The document holds only document bytes, so stripping is identity
    // and it does not end with a comma.
    assert forall|i: int| 0 <= i < sections.len() implies spec_all_bytes(
        spec_wrap_each(sections)[i],
        |c: u8| spec_doc_byte(c),
    ) by {
        if i == 0 {
            lemma_wrap_all_bytes(s_content, |c: u8| spec_doc_byte(c));
        } else if i == 1 {
            lemma_join_all_bytes(spec_wrap_each(spec_layer_contents::<O>(weights)), |c: u8|
                spec_doc_byte(c));
            assert forall|l: int|
                0 <= l < spec_wrap_each(spec_layer_contents::<O>(weights)).len() implies
                spec_all_bytes(
                #[trigger] spec_wrap_each(spec_layer_contents::<O>(weights))[l],
                |c: u8| spec_doc_byte(c),
            ) by {
                lemma_wrap_all_bytes(spec_layer_contents::<O>(weights)[l], |c: u8|
                    spec_doc_byte(c));
            }
            lemma_join_all_bytes(spec_wrap_each(spec_layer_contents::<O>(weights)), |c: u8|
                spec_doc_byte(c));
            lemma_wrap_all_bytes(w_content, |c: u8| spec_doc_byte(c));
        } else {
            assert forall|l: int|
                0 <= l < spec_wrap_each(spec_bias_contents::<O>(biases)).len() implies
                spec_all_bytes(
                #[trigger] spec_wrap_each(spec_bias_contents::<O>(biases))[l],
                |c: u8| spec_doc_byte(c),
            ) by {
                lemma_wrap_all_bytes(spec_bias_contents::<O>(biases)[l], |c: u8| spec_doc_byte(c));
            }
            lemma_join_all_bytes(spec_wrap_each(spec_bias_contents::<O>(biases)), |c: u8|
                spec_doc_byte(c));
            lemma_wrap_all_bytes(b_content, |c: u8| spec_doc_byte(c));
        }
    }
    lemma_join_all_bytes(spec_wrap_each(sections), |c: u8| spec_doc_byte(c));
    lemma_strip_ws_id(doc);

    assert(doc.len() > 0);
    assert(doc.last() == CLOSE_BRACKET) by {
        let prefix = spec_wrap(s_content) + seq![COMMA] + spec_wrap(w_content) + seq![COMMA];
        assert(doc == prefix + spec_wrap(b_content));
        assert(doc[doc.len() - 1] == spec_wrap(b_content)[spec_wrap(b_content).len() - 1]);
        assert(spec_wrap(b_content)[spec_wrap(b_content).len() - 1] == CLOSE_BRACKET);
    }
    assert(spec_trim_comma(doc) == doc);

    // Splitting the document gives the three section contents.
    lemma_groups_of_join(sections, Seq::empty(), Seq::empty(), Seq::empty());
    assert(spec_join(spec_wrap_each(sections)) + Seq::<u8>::empty() =~= doc);
    assert(Seq::<Seq<u8>>::empty() + sections =~= sections);
    let groups = spec_groups(doc, 0, Seq::empty(), Seq::empty());
    assert(groups == sections);
    assert(groups.len() == 3);
    assert(groups[0] == s_content);
    assert(groups[1] == w_content);
    assert(groups[2] == b_content);

    // Reading the three sections gives the three values back.
    assert forall|i: int| 0 <= i < spec_shape_tokens(shape).len() implies (
    #[trigger] spec_shape_tokens(shape)[i]).len() > 0 by {
        lemma_render_usize_facts(shape[i] as nat);
    }
    assert forall|i: int, j: int|
        0 <= i < spec_shape_tokens(shape).len() && 0 <= j < spec_shape_tokens(shape)[i].len()
        implies #[trigger] spec_shape_tokens(shape)[i][j] != COMMA by {
        lemma_render_usize_facts(shape[i] as nat);
        assert((|c: u8| spec_plain(c))(spec_shape_tokens(shape)[i][j]));
    }
    lemma_items_of_join(spec_shape_tokens(shape), Seq::empty());
    assert(Seq::<Seq<u8>>::empty() + spec_shape_tokens(shape) =~= spec_shape_tokens(shape));
    lemma_parse_usizes_of_tokens(shape);
    assert(spec_parse_usizes(spec_items(groups[0], Seq::empty(), Seq::empty())) == Some(shape));

    lemma_groups_of_join(spec_layer_contents::<O>(weights), Seq::empty(), Seq::empty(), Seq::empty());
    assert(spec_join(spec_wrap_each(spec_layer_contents::<O>(weights))) + Seq::<u8>::empty()
        =~= w_content);
    assert(Seq::<Seq<u8>>::empty() + spec_layer_contents::<O>(weights) =~= spec_layer_contents::<
        O,
    >(weights));
    lemma_parse_layers_of_contents::<O>(weights);
    assert(spec_parse_layers::<O>(spec_groups(groups[1], 0, Seq::empty(), Seq::empty())) == Some(
        weights,
    ));

    lemma_groups_of_join(spec_bias_contents::<O>(biases), Seq::empty(), Seq::empty(), Seq::empty());
    assert(spec_join(spec_wrap_each(spec_bias_contents::<O>(biases))) + Seq::<u8>::empty()
        =~= b_content);
    assert(Seq::<Seq<u8>>::empty() + spec_bias_contents::<O>(biases) =~= spec_bias_contents::<O>(
        biases,
    ));
    lemma_parse_biases_of_contents::<O>(biases);
    assert(spec_parse_bias_layers::<O>(spec_groups(groups[2], 0, Seq::empty(), Seq::empty()))
        == Some(biases));
}

} // verus!
