//! The two persistence formats, on plain bytes.
//!
//! The dataset format is a fixed big-endian binary layout: four unsigned
//! 32-bit fields — training count, testing count, input size, output
//! size — followed by the training records and then the testing records,
//! each record holding `input_size` scalars and then `output_size`
//! scalars, every scalar as eight big-endian bytes.
//!
//! The network parameter format is a bracketed-list text form, kept here
//! as ASCII bytes; see the sibling functions further down.

use vstd::prelude::*;

use crate::data::spec_examples;

verus! {

/// The four big-endian bytes of a 32-bit count, most significant first.
pub open spec fn spec_u32_be(x: u32) -> Seq<u8> {
    seq![
        ((x >> 24) & 0xff) as u8,
        ((x >> 16) & 0xff) as u8,
        ((x >> 8) & 0xff) as u8,
        (x & 0xff) as u8,
    ]
}

/// The 32-bit count denoted by four big-endian bytes.
pub open spec fn spec_u32_from_be(s: Seq<u8>) -> u32
    recommends
        s.len() == 4,
{
    ((s[0] as u32) << 24) | ((s[1] as u32) << 16) | ((s[2] as u32) << 8) | (s[3] as u32)
}

/// The eight big-endian bytes of a scalar word, most significant first.
pub open spec fn spec_u64_be(x: u64) -> Seq<u8> {
    seq![
        ((x >> 56) & 0xff) as u8,
        ((x >> 48) & 0xff) as u8,
        ((x >> 40) & 0xff) as u8,
        ((x >> 32) & 0xff) as u8,
        ((x >> 24) & 0xff) as u8,
        ((x >> 16) & 0xff) as u8,
        ((x >> 8) & 0xff) as u8,
        (x & 0xff) as u8,
    ]
}

/// The scalar word denoted by eight big-endian bytes.
pub open spec fn spec_u64_from_be(s: Seq<u8>) -> u64
    recommends
        s.len() == 8,
{
    ((s[0] as u64) << 56) | ((s[1] as u64) << 48) | ((s[2] as u64) << 40) | ((s[3] as u64) << 32)
        | ((s[4] as u64) << 24) | ((s[5] as u64) << 16) | ((s[6] as u64) << 8) | (s[7] as u64)
}

/// Reading back the four big-endian bytes of a count gives the count.
pub proof fn lemma_u32_be_round_trip(x: u32)
    ensures
        spec_u32_be(x).len() == 4,
        spec_u32_from_be(spec_u32_be(x)) == x,
{
    assert(((((x >> 24) & 0xff) as u32) << 24) | ((((x >> 16) & 0xff) as u32) << 16) | ((((x >> 8)
        & 0xff) as u32) << 8) | ((x & 0xff) as u32) == x) by (bit_vector);
    assert((x >> 24) & 0xff < 256 && (x >> 16) & 0xff < 256 && (x >> 8) & 0xff < 256 && x & 0xff
        < 256) by (bit_vector);
}

/// Reading back the eight big-endian bytes of a scalar gives the scalar.
pub proof fn lemma_u64_be_round_trip(x: u64)
    ensures
        spec_u64_be(x).len() == 8,
        spec_u64_from_be(spec_u64_be(x)) == x,
{
    assert(((((x >> 56) & 0xff) as u64) << 56) | ((((x >> 48) & 0xff) as u64) << 48) | ((((x >> 40)
        & 0xff) as u64) << 40) | ((((x >> 32) & 0xff) as u64) << 32) | ((((x >> 24)
        & 0xff) as u64) << 24) | ((((x >> 16) & 0xff) as u64) << 16) | ((((x >> 8)
        & 0xff) as u64) << 8) | ((x & 0xff) as u64) == x) by (bit_vector);
    assert((x >> 56) & 0xff < 256 && (x >> 48) & 0xff < 256 && (x >> 40) & 0xff < 256 && (x >> 32)
        & 0xff < 256 && (x >> 24) & 0xff < 256 && (x >> 16) & 0xff < 256 && (x >> 8) & 0xff < 256
        && x & 0xff < 256) by (bit_vector);
}

/// Appends the four big-endian bytes of a count.
fn push_u32_be(buf: &mut Vec<u8>, x: u32)
    ensures
        final(buf)@ == old(buf)@ + spec_u32_be(x),
{
    buf.push(((x >> 24) & 0xff) as u8);
    buf.push(((x >> 16) & 0xff) as u8);
    buf.push(((x >> 8) & 0xff) as u8);
    buf.push((x & 0xff) as u8);
    proof {
        assert(buf@ =~= old(buf)@ + spec_u32_be(x));
    }
}

/// Appends the eight big-endian bytes of a scalar.
fn push_u64_be(buf: &mut Vec<u8>, x: u64)
    ensures
        final(buf)@ == old(buf)@ + spec_u64_be(x),
{
    buf.push(((x >> 56) & 0xff) as u8);
    buf.push(((x >> 48) & 0xff) as u8);
    buf.push(((x >> 40) & 0xff) as u8);
    buf.push(((x >> 32) & 0xff) as u8);
    buf.push(((x >> 24) & 0xff) as u8);
    buf.push(((x >> 16) & 0xff) as u8);
    buf.push(((x >> 8) & 0xff) as u8);
    buf.push((x & 0xff) as u8);
    proof {
        assert(buf@ =~= old(buf)@ + spec_u64_be(x));
    }
}

/// Reads the scalar at byte position `pos`.
fn read_u64_be(data: &Vec<u8>, pos: usize) -> (r: u64)
    requires
        pos + 8 <= data@.len(),
        pos + 8 <= usize::MAX,
    ensures
        r == spec_u64_from_be(data@.subrange(pos as int, pos as int + 8)),
{
    let r: u64 = ((data[pos] as u64) << 56) | ((data[pos + 1] as u64) << 48) | ((data[pos
        + 2] as u64) << 40) | ((data[pos + 3] as u64) << 32) | ((data[pos + 4] as u64) << 24) | ((
    data[pos + 5] as u64) << 16) | ((data[pos + 6] as u64) << 8) | (data[pos + 7] as u64);
    proof {
        let s = data@.subrange(pos as int, pos as int + 8);
        assert(s[0] == data@[pos as int] && s[1] == data@[pos as int + 1] && s[2] == data@[pos as int
            + 2] && s[3] == data@[pos as int + 3] && s[4] == data@[pos as int + 4] && s[5]
            == data@[pos as int + 5] && s[6] == data@[pos as int + 6] && s[7] == data@[pos as int
            + 7]);
    }
    r
}

/// Reads the count at byte position `pos`.
fn read_u32_be(data: &Vec<u8>, pos: usize) -> (r: u32)
    requires
        pos + 4 <= data@.len(),
        pos + 4 <= usize::MAX,
    ensures
        r == spec_u32_from_be(data@.subrange(pos as int, pos as int + 4)),
{
    let r: u32 = ((data[pos] as u32) << 24) | ((data[pos + 1] as u32) << 16) | ((data[pos
        + 2] as u32) << 8) | (data[pos + 3] as u32);
    proof {
        let s = data@.subrange(pos as int, pos as int + 4);
        assert(s[0] == data@[pos as int] && s[1] == data@[pos as int + 1] && s[2] == data@[pos as int
            + 2] && s[3] == data@[pos as int + 3]);
    }
    r
}

/// The flat big-endian bytes of a scalar sequence.
pub open spec fn spec_scalars_bytes(s: Seq<u64>) -> Seq<u8>
    decreases s.len(),
{
    if s.len() == 0 {
        Seq::empty()
    } else {
        spec_u64_be(s[0]) + spec_scalars_bytes(s.drop_first())
    }
}

/// The bytes of one record: the input scalars, then the output scalars.
pub open spec fn spec_example_bytes(e: (Seq<u64>, Seq<u64>)) -> Seq<u8> {
    spec_scalars_bytes(e.0) + spec_scalars_bytes(e.1)
}

/// The bytes of a list of records, in order.
pub open spec fn spec_examples_bytes(d: Seq<(Seq<u64>, Seq<u64>)>) -> Seq<u8>
    decreases d.len(),
{
    if d.len() == 0 {
        Seq::empty()
    } else {
        spec_example_bytes(d[0]) + spec_examples_bytes(d.drop_first())
    }
}

/// The whole dataset file: the four header counts, then the training
/// records, then the testing records.
pub open spec fn spec_dset_bytes(
    training_count: u32,
    testing_count: u32,
    input_size: u32,
    output_size: u32,
    training: Seq<(Seq<u64>, Seq<u64>)>,
    testing: Seq<(Seq<u64>, Seq<u64>)>,
) -> Seq<u8> {
    spec_u32_be(training_count) + spec_u32_be(testing_count) + spec_u32_be(input_size)
        + spec_u32_be(output_size) + spec_examples_bytes(training) + spec_examples_bytes(testing)
}

/// The byte length of a scalar sequence's encoding: eight per scalar.
pub proof fn lemma_scalars_bytes_len(s: Seq<u64>)
    ensures
        spec_scalars_bytes(s).len() == 8 * s.len(),
    decreases s.len(),
{
    if s.len() > 0 {
        lemma_scalars_bytes_len(s.drop_first());
    }
}

/// Appending one scalar appends its eight bytes.
pub proof fn lemma_scalars_bytes_snoc(s: Seq<u64>, i: int)
    requires
        0 <= i < s.len(),
    ensures
        spec_scalars_bytes(s.take(i + 1)) == spec_scalars_bytes(s.take(i)) + spec_u64_be(s[i]),
    decreases i,
{
    if i == 0 {
        assert(s.take(1).drop_first() =~= Seq::<u64>::empty());
        assert(s.take(0) =~= Seq::<u64>::empty());
        assert(s.take(1)[0] == s[0]);
        assert(spec_scalars_bytes(s.take(1)) == spec_u64_be(s.take(1)[0]) + spec_scalars_bytes(
            s.take(1).drop_first(),
        ));
        assert(spec_scalars_bytes(Seq::<u64>::empty()) =~= Seq::<u8>::empty());
        assert(spec_u64_be(s[0]) + Seq::<u8>::empty() =~= spec_u64_be(s[0]));
        assert(spec_scalars_bytes(s.take(0)) + spec_u64_be(s[0]) =~= spec_u64_be(s[0]));
    } else {
        lemma_scalars_bytes_snoc(s.drop_first(), i - 1);
        assert(s.take(i + 1).drop_first() =~= s.drop_first().take(i));
        assert(s.take(i).drop_first() =~= s.drop_first().take(i - 1));
        assert(s.take(i + 1)[0] == s[0]);
        assert(s.take(i)[0] == s[0]);
        assert(s.drop_first()[i - 1] == s[i]);
        assert(spec_u64_be(s[0]) + (spec_scalars_bytes(s.drop_first().take(i - 1)) + spec_u64_be(
            s[i],
        )) =~= (spec_u64_be(s[0]) + spec_scalars_bytes(s.drop_first().take(i - 1))) + spec_u64_be(
            s[i],
        ));
    }
}

/// Appending one record appends its bytes.
pub proof fn lemma_examples_bytes_snoc(d: Seq<(Seq<u64>, Seq<u64>)>, i: int)
    requires
        0 <= i < d.len(),
    ensures
        spec_examples_bytes(d.take(i + 1)) == spec_examples_bytes(d.take(i)) + spec_example_bytes(
            d[i],
        ),
    decreases i,
{
    if i == 0 {
        assert(d.take(1).drop_first() =~= Seq::<(Seq<u64>, Seq<u64>)>::empty());
        assert(d.take(0) =~= Seq::<(Seq<u64>, Seq<u64>)>::empty());
        assert(d.take(1)[0] == d[0]);
        assert(spec_examples_bytes(d.take(1)) == spec_example_bytes(d.take(1)[0])
            + spec_examples_bytes(d.take(1).drop_first()));
        assert(spec_examples_bytes(Seq::<(Seq<u64>, Seq<u64>)>::empty()) =~= Seq::<u8>::empty());
        assert(spec_example_bytes(d[0]) + Seq::<u8>::empty() =~= spec_example_bytes(d[0]));
        assert(spec_examples_bytes(d.take(0)) + spec_example_bytes(d[0]) =~= spec_example_bytes(
            d[0],
        ));
    } else {
        lemma_examples_bytes_snoc(d.drop_first(), i - 1);
        assert(d.take(i + 1).drop_first() =~= d.drop_first().take(i));
        assert(d.take(i).drop_first() =~= d.drop_first().take(i - 1));
        assert(d.take(i + 1)[0] == d[0]);
        assert(d.take(i)[0] == d[0]);
        assert(d.drop_first()[i - 1] == d[i]);
        assert(spec_example_bytes(d[0]) + (spec_examples_bytes(d.drop_first().take(i - 1))
            + spec_example_bytes(d[i])) =~= (spec_example_bytes(d[0]) + spec_examples_bytes(
            d.drop_first().take(i - 1),
        )) + spec_example_bytes(d[i]));
    }
}

/// Appends the flat bytes of one vector of scalars.
fn push_scalars(buf: &mut Vec<u8>, s: &Vec<u64>)
    ensures
        final(buf)@ == old(buf)@ + spec_scalars_bytes(s@),
{
    let mut i: usize = 0;
    while i < s.len()
        invariant
            0 <= i <= s@.len(),
            buf@ == old(buf)@ + spec_scalars_bytes(s@.take(i as int)),
        decreases s@.len() - i,
    {
        proof {
            assert(spec_scalars_bytes(s@.take(0)) =~= Seq::<u8>::empty());
            lemma_scalars_bytes_snoc(s@, i as int);
        }
        push_u64_be(buf, s[i]);
        proof {
            assert(old(buf)@ + spec_scalars_bytes(s@.take(i as int)) + spec_u64_be(s@[i as int])
                =~= old(buf)@ + (spec_scalars_bytes(s@.take(i as int)) + spec_u64_be(
                s@[i as int],
            )));
        }
        i += 1;
    }
    proof {
        assert(s@.take(s@.len() as int) =~= s@);
        assert(spec_scalars_bytes(s@.take(0)) =~= Seq::<u8>::empty());
        assert(old(buf)@ + Seq::<u8>::empty() =~= old(buf)@);
    }
}

/// Appends the records of one example list, in order.
fn push_examples(buf: &mut Vec<u8>, d: &Vec<(Vec<u64>, Vec<u64>)>)
    ensures
        final(buf)@ == old(buf)@ + spec_examples_bytes(spec_examples(d@)),
{
    let ghost dd = spec_examples(d@);
    let mut i: usize = 0;
    while i < d.len()
        invariant
            0 <= i <= d@.len(),
            dd == spec_examples(d@),
            dd.len() == d@.len(),
            buf@ == old(buf)@ + spec_examples_bytes(dd.take(i as int)),
        decreases d@.len() - i,
    {
        proof {
            assert(spec_examples_bytes(dd.take(0)) =~= Seq::<u8>::empty());
            lemma_examples_bytes_snoc(dd, i as int);
            assert(dd[i as int] == (d@[i as int].0@, d@[i as int].1@));
        }
        let ghost before = buf@;
        push_scalars(buf, &d[i].0);
        push_scalars(buf, &d[i].1);
        proof {
            assert(buf@ =~= before + spec_example_bytes(dd[i as int]));
            assert(old(buf)@ + spec_examples_bytes(dd.take(i as int)) + spec_example_bytes(
                dd[i as int],
            ) =~= old(buf)@ + (spec_examples_bytes(dd.take(i as int)) + spec_example_bytes(
                dd[i as int],
            )));
        }
        i += 1;
    }
    proof {
        assert(dd.take(dd.len() as int) =~= dd);
        assert(spec_examples_bytes(dd.take(0)) =~= Seq::<u8>::empty());
        assert(old(buf)@ + Seq::<u8>::empty() =~= old(buf)@);
    }
}

/// Encodes a dataset file: the four given header counts, then every
/// training record, then every testing record. The counts are written as
/// given; the caller derives them from the data.
pub fn write_dset_file(
    training_count: u32,
    testing_count: u32,
    input_size: u32,
    output_size: u32,
    training_points: &Vec<(Vec<u64>, Vec<u64>)>,
    testing_points: &Vec<(Vec<u64>, Vec<u64>)>,
) -> (r: Vec<u8>)
    ensures
        r@ == spec_dset_bytes(
            training_count,
            testing_count,
            input_size,
            output_size,
            spec_examples(training_points@),
            spec_examples(testing_points@),
        ),
{
    let mut buf: Vec<u8> = Vec::new();
    push_u32_be(&mut buf, training_count);
    push_u32_be(&mut buf, testing_count);
    push_u32_be(&mut buf, input_size);
    push_u32_be(&mut buf, output_size);
    push_examples(&mut buf, training_points);
    push_examples(&mut buf, testing_points);
    proof {
        assert(buf@ =~= spec_dset_bytes(
            training_count,
            testing_count,
            input_size,
            output_size,
            spec_examples(training_points@),
            spec_examples(testing_points@),
        ));
    }
    buf
}

/// Prefixes the scalars of a successful consumption with `pre`.
pub open spec fn spec_append_scalars(pre: Seq<u64>, r: Option<(Seq<u64>, Seq<u8>)>) -> Option<
    (Seq<u64>, Seq<u8>),
> {
    match r {
        Some(p) => Some((pre + p.0, p.1)),
        None => None,
    }
}

/// Consumes `count` scalars of eight big-endian bytes each from the front
/// of `data`; `None` when the bytes run out.
pub open spec fn spec_take_scalars(data: Seq<u8>, count: nat) -> Option<(Seq<u64>, Seq<u8>)>
    decreases count,
{
    if count == 0 {
        Some((Seq::empty(), data))
    } else if data.len() < 8 {
        None
    } else {
        spec_append_scalars(
            seq![spec_u64_from_be(data.take(8))],
            spec_take_scalars(data.skip(8), (count - 1) as nat),
        )
    }
}

/// Prefixes the records of a successful consumption with `pre`.
pub open spec fn spec_append_examples(
    pre: Seq<(Seq<u64>, Seq<u64>)>,
    r: Option<(Seq<(Seq<u64>, Seq<u64>)>, Seq<u8>)>,
) -> Option<(Seq<(Seq<u64>, Seq<u64>)>, Seq<u8>)> {
    match r {
        Some(p) => Some((pre + p.0, p.1)),
        None => None,
    }
}

/// Consumes `count` records from the front of `data`, each holding
/// `input_size` and then `output_size` scalars.
pub open spec fn spec_take_examples(
    data: Seq<u8>,
    count: nat,
    input_size: nat,
    output_size: nat,
) -> Option<(Seq<(Seq<u64>, Seq<u64>)>, Seq<u8>)>
    decreases count,
{
    if count == 0 {
        Some((Seq::empty(), data))
    } else {
        match spec_take_scalars(data, input_size) {
            Some(pi) => match spec_take_scalars(pi.1, output_size) {
                Some(po) => spec_append_examples(
                    seq![(pi.0, po.0)],
                    spec_take_examples(po.1, (count - 1) as nat, input_size, output_size),
                ),
                None => None,
            },
            None => None,
        }
    }
}

/// The decoding of a whole dataset file: the four header counts, then
/// exactly the declared number of training and testing records. `None`
/// when the bytes run out; bytes after the declared records are ignored.
pub open spec fn spec_read_dset(data: Seq<u8>) -> Option<
    (Seq<(Seq<u64>, Seq<u64>)>, Seq<(Seq<u64>, Seq<u64>)>),
> {
    if data.len() < 16 {
        None
    } else {
        let tc = spec_u32_from_be(data.subrange(0, 4));
        let sc = spec_u32_from_be(data.subrange(4, 8));
        let iw = spec_u32_from_be(data.subrange(8, 12));
        let ow = spec_u32_from_be(data.subrange(12, 16));
        match spec_take_examples(data.skip(16), tc as nat, iw as nat, ow as nat) {
            Some(ptr) => match spec_take_examples(ptr.1, sc as nat, iw as nat, ow as nat) {
                Some(pte) => Some((ptr.0, pte.0)),
                None => None,
            },
            None => None,
        }
    }
}

/// Consumes `count` scalars starting at byte position `pos`, handing back
/// the scalars and the position after them.
fn take_scalars(data: &Vec<u8>, pos: usize, count: u32) -> (r: Option<(Vec<u64>, usize)>)
    requires
        pos <= data@.len(),
    ensures
        match r {
            Some(p) => {
                &&& spec_take_scalars(data@.skip(pos as int), count as nat) == Some(
                    (p.0@, data@.skip(p.1 as int)),
                )
                &&& pos <= p.1 <= data@.len()
            },
            None => spec_take_scalars(data@.skip(pos as int), count as nat) is None,
        },
{
    let len: usize = data.len();
    let ghost pos0 = pos as int;
    let mut vals: Vec<u64> = Vec::new();
    let mut cursor: usize = pos;
    let mut remaining: u32 = count;
    while remaining > 0
        invariant
            pos0 == pos as int,
            pos0 <= cursor <= data@.len(),
            data@.len() == len,
            remaining <= count,
            spec_take_scalars(data@.skip(pos0), count as nat) == spec_append_scalars(
                vals@,
                spec_take_scalars(data@.skip(cursor as int), remaining as nat),
            ),
        decreases remaining,
    {
        if len - cursor < 8 {
            proof {
                assert(data@.skip(cursor as int).len() < 8);
            }
            return None;
        }
        let v: u64 = read_u64_be(data, cursor);
        proof {
            assert(data@.skip(cursor as int).take(8) =~= data@.subrange(
                cursor as int,
                cursor as int + 8,
            ));
            assert(data@.skip(cursor as int).skip(8) =~= data@.skip(cursor as int + 8));
            assert(spec_take_scalars(data@.skip(cursor as int), remaining as nat)
                == spec_append_scalars(
                seq![v],
                spec_take_scalars(data@.skip(cursor as int + 8), (remaining - 1) as nat),
            ));
            match spec_take_scalars(data@.skip(cursor as int + 8), (remaining - 1) as nat) {
                Some(p) => {
                    assert(vals@ + (seq![v] + p.0) =~= vals@.push(v) + p.0);
                },
                None => {},
            }
        }
        vals.push(v);
        cursor = cursor + 8;
        remaining = remaining - 1;
    }
    proof {
        assert(spec_take_scalars(data@.skip(cursor as int), 0) == Some(
            (Seq::<u64>::empty(), data@.skip(cursor as int)),
        ));
        assert(vals@ + Seq::<u64>::empty() =~= vals@);
    }
    Some((vals, cursor))
}

/// Consumes `count` records starting at byte position `pos`, handing back
/// the records and the position after them.
fn take_examples(data: &Vec<u8>, pos: usize, count: u32, input_size: u32, output_size: u32) -> (r:
    Option<(Vec<(Vec<u64>, Vec<u64>)>, usize)>)
    requires
        pos <= data@.len(),
    ensures
        match r {
            Some(p) => {
                &&& spec_take_examples(
                    data@.skip(pos as int),
                    count as nat,
                    input_size as nat,
                    output_size as nat,
                ) == Some((spec_examples(p.0@), data@.skip(p.1 as int)))
                &&& pos <= p.1 <= data@.len()
            },
            None => spec_take_examples(
                data@.skip(pos as int),
                count as nat,
                input_size as nat,
                output_size as nat,
            ) is None,
        },
{
    let ghost pos0 = pos as int;
    let mut examples: Vec<(Vec<u64>, Vec<u64>)> = Vec::new();
    let mut cursor: usize = pos;
    let mut remaining: u32 = count;
    while remaining > 0
        invariant
            pos0 == pos as int,
            pos0 <= cursor <= data@.len(),
            remaining <= count,
            spec_take_examples(data@.skip(pos0), count as nat, input_size as nat, output_size as nat)
                == spec_append_examples(
                spec_examples(examples@),
                spec_take_examples(
                    data@.skip(cursor as int),
                    remaining as nat,
                    input_size as nat,
                    output_size as nat,
                ),
            ),
        decreases remaining,
    {
        let inputs_r: Option<(Vec<u64>, usize)> = take_scalars(data, cursor, input_size);
        let (inputs, after_inputs): (Vec<u64>, usize) = match inputs_r {
            Some(p) => p,
            None => {
                return None;
            },
        };
        let outputs_r: Option<(Vec<u64>, usize)> = take_scalars(data, after_inputs, output_size);
        let (outputs, after_outputs): (Vec<u64>, usize) = match outputs_r {
            Some(p) => p,
            None => {
                return None;
            },
        };
        proof {
            let tail = spec_take_examples(
                data@.skip(after_outputs as int),
                (remaining - 1) as nat,
                input_size as nat,
                output_size as nat,
            );
            match tail {
                Some(p) => {
                    assert(spec_examples(examples@) + (seq![(inputs@, outputs@)] + p.0)
                        =~= spec_examples(examples@.push((inputs, outputs))) + p.0);
                },
                None => {},
            }
        }
        examples.push((inputs, outputs));
        cursor = after_outputs;
        remaining = remaining - 1;
    }
    proof {
        assert(spec_take_examples(
            data@.skip(cursor as int),
            0,
            input_size as nat,
            output_size as nat,
        ) == Some((Seq::<(Seq<u64>, Seq<u64>)>::empty(), data@.skip(cursor as int))));
        assert(spec_examples(examples@) + Seq::<(Seq<u64>, Seq<u64>)>::empty() =~= spec_examples(
            examples@,
        ));
    }
    Some((examples, cursor))
}

/// Decodes a dataset file: reads the four header counts and then exactly
/// the declared records. `None` when the bytes run out (a truncated or
/// corrupt stream; callers treat it as fatal). Bytes after the declared
/// records are ignored.
pub fn read_dset_file(data: &Vec<u8>) -> (r: Option<
    (Vec<(Vec<u64>, Vec<u64>)>, Vec<(Vec<u64>, Vec<u64>)>),
>)
    ensures
        match r {
            Some(p) => spec_read_dset(data@) == Some(
                (spec_examples(p.0@), spec_examples(p.1@)),
            ),
            None => spec_read_dset(data@) is None,
        },
{
    if data.len() < 16 {
        return None;
    }
    let tc: u32 = read_u32_be(data, 0);
    let sc: u32 = read_u32_be(data, 4);
    let iw: u32 = read_u32_be(data, 8);
    let ow: u32 = read_u32_be(data, 12);
    proof {
        assert(data@.subrange(0, 4) =~= data@.subrange(0 as int, 0 as int + 4));
        assert(data@.subrange(4, 8) =~= data@.subrange(4 as int, 4 as int + 4));
        assert(data@.subrange(8, 12) =~= data@.subrange(8 as int, 8 as int + 4));
        assert(data@.subrange(12, 16) =~= data@.subrange(12 as int, 12 as int + 4));
    }
    let training_r: Option<(Vec<(Vec<u64>, Vec<u64>)>, usize)> = take_examples(
        data,
        16,
        tc,
        iw,
        ow,
    );
    let (training, after_training): (Vec<(Vec<u64>, Vec<u64>)>, usize) = match training_r {
        Some(p) => p,
        None => {
            return None;
        },
    };
    let testing_r: Option<(Vec<(Vec<u64>, Vec<u64>)>, usize)> = take_examples(
        data,
        after_training,
        sc,
        iw,
        ow,
    );
    let (testing, _after_testing): (Vec<(Vec<u64>, Vec<u64>)>, usize) = match testing_r {
        Some(p) => p,
        None => {
            return None;
        },
    };
    Some((training, testing))
}

/// Consuming the encoding of a scalar sequence gives the sequence back,
/// leaving the following bytes untouched.
pub proof fn lemma_take_scalars_round_trip(s: Seq<u64>, rest: Seq<u8>)
    ensures
        spec_take_scalars(spec_scalars_bytes(s) + rest, s.len()) == Some((s, rest)),
    decreases s.len(),
{
    if s.len() == 0 {
        assert(spec_scalars_bytes(s) + rest =~= rest);
        assert(s =~= Seq::<u64>::empty());
    } else {
        let bytes = spec_scalars_bytes(s) + rest;
        lemma_u64_be_round_trip(s[0]);
        lemma_scalars_bytes_len(s);
        assert(bytes.take(8) =~= spec_u64_be(s[0]));
        assert(bytes.skip(8) =~= spec_scalars_bytes(s.drop_first()) + rest);
        lemma_take_scalars_round_trip(s.drop_first(), rest);
        assert(spec_u64_from_be(bytes.take(8)) == s[0]);
        assert(seq![s[0]] + s.drop_first() =~= s);
    }
}

/// Consuming the encoding of a record list gives the records back,
/// provided every record has the declared widths.
pub proof fn lemma_take_examples_round_trip(
    d: Seq<(Seq<u64>, Seq<u64>)>,
    rest: Seq<u8>,
    input_size: nat,
    output_size: nat,
)
    requires
        forall|i: int| 0 <= i < d.len() ==> (#[trigger] d[i]).0.len() == input_size
            && d[i].1.len() == output_size,
    ensures
        spec_take_examples(spec_examples_bytes(d) + rest, d.len(), input_size, output_size)
            == Some((d, rest)),
    decreases d.len(),
{
    if d.len() == 0 {
        assert(spec_examples_bytes(d) + rest =~= rest);
        assert(d =~= Seq::<(Seq<u64>, Seq<u64>)>::empty());
    } else {
        let bytes = spec_examples_bytes(d) + rest;
        let rest1 = spec_scalars_bytes(d[0].1) + (spec_examples_bytes(d.drop_first()) + rest);
        let rest2 = spec_examples_bytes(d.drop_first()) + rest;
        assert(bytes =~= spec_scalars_bytes(d[0].0) + rest1);
        lemma_take_scalars_round_trip(d[0].0, rest1);
        lemma_take_scalars_round_trip(d[0].1, rest2);
        lemma_take_examples_round_trip(d.drop_first(), rest, input_size, output_size);
        assert(d[0] == (d[0].0, d[0].1));
        assert(seq![(d[0].0, d[0].1)] + d.drop_first() =~= d);
    }
}

/// Round trip of the binary dataset format: decoding the encoding of a
/// dataset whose records all share the declared widths reproduces the
/// training and testing record sequences exactly, in order.
pub proof fn lemma_dset_round_trip(
    training_count: u32,
    testing_count: u32,
    input_size: u32,
    output_size: u32,
    training: Seq<(Seq<u64>, Seq<u64>)>,
    testing: Seq<(Seq<u64>, Seq<u64>)>,
)
    requires
        training.len() == training_count,
        testing.len() == testing_count,
        forall|i: int| 0 <= i < training.len() ==> (#[trigger] training[i]).0.len() == input_size
            && training[i].1.len() == output_size,
        forall|i: int| 0 <= i < testing.len() ==> (#[trigger] testing[i]).0.len() == input_size
            && testing[i].1.len() == output_size,
    ensures
        spec_read_dset(
            spec_dset_bytes(
                training_count,
                testing_count,
                input_size,
                output_size,
                training,
                testing,
            ),
        ) == Some((training, testing)),
{
    let bytes = spec_dset_bytes(
        training_count,
        testing_count,
        input_size,
        output_size,
        training,
        testing,
    );
    lemma_u32_be_round_trip(training_count);
    lemma_u32_be_round_trip(testing_count);
    lemma_u32_be_round_trip(input_size);
    lemma_u32_be_round_trip(output_size);
    assert(bytes.len() >= 16);
    assert(bytes.subrange(0, 4) =~= spec_u32_be(training_count));
    assert(bytes.subrange(4, 8) =~= spec_u32_be(testing_count));
    assert(bytes.subrange(8, 12) =~= spec_u32_be(input_size));
    assert(bytes.subrange(12, 16) =~= spec_u32_be(output_size));
    assert(bytes.skip(16) =~= spec_examples_bytes(training) + spec_examples_bytes(testing));
    lemma_take_examples_round_trip(
        training,
        spec_examples_bytes(testing),
        input_size as nat,
        output_size as nat,
    );
    lemma_take_examples_round_trip(testing, Seq::<u8>::empty(), input_size as nat, output_size as nat);
    assert(spec_examples_bytes(testing) + Seq::<u8>::empty() =~= spec_examples_bytes(testing));
}

} // verus!
