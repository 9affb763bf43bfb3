//! The binary log format of a write batch: a sequence of operation records,
//! each tagged with its kind, with every byte string length-prefixed. The
//! format is deterministic, so decoding an encoded log and re-encoding it
//! reproduces the identical bytes, and encoding then decoding returns the
//! identical operation sequence.

use vstd::prelude::*;
use vstd::bytes::*;
use vstd::seq_lib::*;
use vstd::assert_seqs_equal;

verus! {

/// Record tag of a plain upsert.
pub const TAG_PUT: u8 = 0;

/// Record tag of an upsert scoped to a column family.
pub const TAG_PUT_CF: u8 = 1;

/// Record tag of a plain deletion.
pub const TAG_DELETE: u8 = 2;

/// Record tag of a deletion scoped to a column family.
pub const TAG_DELETE_CF: u8 = 3;

/// Record tag of a wide-column entity upsert scoped to a column family.
pub const TAG_PUT_ENTITY_CF: u8 = 4;

/// One recorded mutation, as a mathematical value. Byte strings are
/// sequences; a column family is the opaque numeric token the database layer
/// hands out.
pub enum Op {
    Put { key: Seq<u8>, value: Seq<u8> },
    PutCf { cf: u32, key: Seq<u8>, value: Seq<u8> },
    Delete { key: Seq<u8> },
    DeleteCf { cf: u32, key: Seq<u8> },
    PutEntityCf { cf: u32, key: Seq<u8>, names: Seq<Seq<u8>>, values: Seq<Seq<u8>> },
}

/// Whether a byte string fits behind the format's 64-bit length prefix.
pub open spec fn blob_wf(b: Seq<u8>) -> bool {
    b.len() <= u64::MAX
}

/// Whether an operation can be encoded: every byte string fits its length
/// prefix, and an entity upsert pairs names with values positionally.
pub open spec fn op_wf(op: Op) -> bool {
    match op {
        Op::Put { key, value } => blob_wf(key) && blob_wf(value),
        Op::PutCf { cf, key, value } => blob_wf(key) && blob_wf(value),
        Op::Delete { key } => blob_wf(key),
        Op::DeleteCf { cf, key } => blob_wf(key),
        Op::PutEntityCf { cf, key, names, values } => {
            &&& blob_wf(key)
            &&& names.len() == values.len()
            &&& names.len() <= u64::MAX
            &&& forall|i: int|
                #![trigger names[i]]
                #![trigger values[i]]
                0 <= i < names.len() ==> blob_wf(names[i]) && blob_wf(values[i])
        },
    }
}

/// Whether every operation of a sequence can be encoded.
pub open spec fn ops_wf(ops: Seq<Op>) -> bool {
    forall|i: int| 0 <= i < ops.len() ==> op_wf(#[trigger] ops[i])
}

/// A byte string in the log: its length as eight little-endian bytes, then
/// its bytes.
pub open spec fn enc_blob(b: Seq<u8>) -> Seq<u8> {
    spec_u64_to_le_bytes(b.len() as u64) + b
}

/// The columns of an entity record: name and value blobs, alternating, in
/// order.
pub open spec fn enc_pairs(names: Seq<Seq<u8>>, values: Seq<Seq<u8>>) -> Seq<u8>
    decreases names.len(),
{
    if names.len() == 0 {
        Seq::empty()
    } else {
        enc_blob(names[0]) + enc_blob(values[0]) + enc_pairs(names.drop_first(), values.drop_first())
    }
}

/// One record: its kind tag, then the kind's fields.
pub open spec fn encode_op(op: Op) -> Seq<u8> {
    match op {
        Op::Put { key, value } => seq![TAG_PUT] + enc_blob(key) + enc_blob(value),
        Op::PutCf { cf, key, value } => seq![TAG_PUT_CF] + spec_u32_to_le_bytes(cf) + enc_blob(key)
            + enc_blob(value),
        Op::Delete { key } => seq![TAG_DELETE] + enc_blob(key),
        Op::DeleteCf { cf, key } => seq![TAG_DELETE_CF] + spec_u32_to_le_bytes(cf) + enc_blob(key),
        Op::PutEntityCf { cf, key, names, values } => seq![TAG_PUT_ENTITY_CF]
            + spec_u32_to_le_bytes(cf) + enc_blob(key) + spec_u64_to_le_bytes(names.len() as u64)
            + enc_pairs(names, values),
    }
}

/// A whole log: the records, in order, with nothing between or after them.
/// An empty batch encodes to the empty byte sequence.
pub open spec fn encode_ops(ops: Seq<Op>) -> Seq<u8>
    decreases ops.len(),
{
    if ops.len() == 0 {
        Seq::empty()
    } else {
        encode_op(ops[0]) + encode_ops(ops.drop_first())
    }
}

/// Reads one length-prefixed byte string; returns it and the remaining
/// bytes, or `None` where the prefix or the string runs past the input.
pub open spec fn dec_blob(s: Seq<u8>) -> Option<(Seq<u8>, Seq<u8>)> {
    if s.len() < 8 {
        None
    } else {
        let n = spec_u64_from_le_bytes(s.take(8)) as int;
        if n + 8 <= s.len() {
            Some((s.subrange(8, 8 + n), s.skip(8 + n)))
        } else {
            None
        }
    }
}

/// Reads `n` name/value blob pairs; returns the names, the values and the
/// remaining bytes.
pub open spec fn dec_pairs(s: Seq<u8>, n: nat) -> Option<(Seq<Seq<u8>>, Seq<Seq<u8>>, Seq<u8>)>
    decreases n,
{
    if n == 0 {
        Some((Seq::empty(), Seq::empty(), s))
    } else {
        match dec_blob(s) {
            None => None,
            Some((name, r1)) => match dec_blob(r1) {
                None => None,
                Some((value, r2)) => match dec_pairs(r2, (n - 1) as nat) {
                    None => None,
                    Some((names, values, rest)) => Some(
                        (seq![name] + names, seq![value] + values, rest),
                    ),
                },
            },
        }
    }
}

/// Reads one record; returns the operation and the remaining bytes, or
/// `None` where the input is empty, the tag is unknown, or a field is cut
/// short.
pub open spec fn decode_op(s: Seq<u8>) -> Option<(Op, Seq<u8>)> {
    if s.len() == 0 {
        None
    } else {
        let tag = s[0];
        let r0 = s.drop_first();
        if tag == TAG_PUT {
            match dec_blob(r0) {
                None => None,
                Some((key, r1)) => match dec_blob(r1) {
                    None => None,
                    Some((value, r2)) => Some((Op::Put { key, value }, r2)),
                },
            }
        } else if tag == TAG_PUT_CF {
            if r0.len() < 4 {
                None
            } else {
                let cf = spec_u32_from_le_bytes(r0.take(4));
                match dec_blob(r0.skip(4)) {
                    None => None,
                    Some((key, r1)) => match dec_blob(r1) {
                        None => None,
                        Some((value, r2)) => Some((Op::PutCf { cf, key, value }, r2)),
                    },
                }
            }
        } else if tag == TAG_DELETE {
            match dec_blob(r0) {
                None => None,
                Some((key, r1)) => Some((Op::Delete { key }, r1)),
            }
        } else if tag == TAG_DELETE_CF {
            if r0.len() < 4 {
                None
            } else {
                let cf = spec_u32_from_le_bytes(r0.take(4));
                match dec_blob(r0.skip(4)) {
                    None => None,
                    Some((key, r1)) => Some((Op::DeleteCf { cf, key }, r1)),
                }
            }
        } else if tag == TAG_PUT_ENTITY_CF {
            if r0.len() < 4 {
                None
            } else {
                let cf = spec_u32_from_le_bytes(r0.take(4));
                match dec_blob(r0.skip(4)) {
                    None => None,
                    Some((key, r1)) => {
                        if r1.len() < 8 {
                            None
                        } else {
                            let n = spec_u64_from_le_bytes(r1.take(8)) as nat;
                            match dec_pairs(r1.skip(8), n) {
                                None => None,
                                Some((names, values, rest)) => Some(
                                    (Op::PutEntityCf { cf, key, names, values }, rest),
                                ),
                            }
                        }
                    },
                }
            }
        } else {
            None
        }
    }
}

/// Reads a whole log: the records, in order, to the exact end of the input.
pub open spec fn decode_ops(s: Seq<u8>) -> Option<Seq<Op>>
    decreases s.len(),
{
    if s.len() == 0 {
        Some(Seq::empty())
    } else {
        match decode_op(s) {
            None => None,
            Some((op, rest)) => {
                if rest.len() < s.len() {
                    match decode_ops(rest) {
                        None => None,
                        Some(ops) => Some(seq![op] + ops),
                    }
                } else {
                    None
                }
            },
        }
    }
}

/// Decoding reads back exactly the blob that encoding wrote, and leaves
/// exactly the trailing bytes.
pub proof fn lemma_dec_blob_enc(b: Seq<u8>, rest: Seq<u8>)
    requires
        blob_wf(b),
    ensures
        dec_blob(enc_blob(b) + rest) == Some((b, rest)),
{
    lemma_auto_spec_u64_to_from_le_bytes();
    let pre = spec_u64_to_le_bytes(b.len() as u64);
    let s = enc_blob(b) + rest;
    assert(s.len() == 8 + b.len() + rest.len());
    assert_seqs_equal!(s.take(8) == pre);
    let n = spec_u64_from_le_bytes(s.take(8)) as int;
    assert(n == b.len());
    assert_seqs_equal!(s.subrange(8, 8 + n) == b);
    assert_seqs_equal!(s.skip(8 + n) == rest);
}

/// A successfully decoded blob re-encodes to exactly the bytes it was read
/// from, and the remainder is strictly shorter than the input.
pub proof fn lemma_enc_blob_dec(s: Seq<u8>, b: Seq<u8>, rest: Seq<u8>)
    requires
        dec_blob(s) == Some((b, rest)),
    ensures
        blob_wf(b),
        enc_blob(b) + rest == s,
        rest.len() + 8 <= s.len(),
{
    lemma_auto_spec_u64_to_from_le_bytes();
    let n = spec_u64_from_le_bytes(s.take(8)) as int;
    assert(s.len() >= 8 && n + 8 <= s.len());
    assert(b == s.subrange(8, 8 + n));
    assert(rest == s.skip(8 + n));
    assert(b.len() == n);
    assert(spec_u64_to_le_bytes(spec_u64_from_le_bytes(s.take(8))) == s.take(8));
    assert(b.len() as u64 == spec_u64_from_le_bytes(s.take(8)));
    assert_seqs_equal!(enc_blob(b) + rest == s);
}

/// Decoding reads back exactly the name/value pairs that encoding wrote.
pub proof fn lemma_dec_pairs_enc(names: Seq<Seq<u8>>, values: Seq<Seq<u8>>, rest: Seq<u8>)
    requires
        names.len() == values.len(),
        forall|i: int|
            #![trigger names[i]]
            #![trigger values[i]]
            0 <= i < names.len() ==> blob_wf(names[i]) && blob_wf(values[i]),
    ensures
        dec_pairs(enc_pairs(names, values) + rest, names.len()) == Some((names, values, rest)),
    decreases names.len(),
{
    if names.len() == 0 {
        assert_seqs_equal!(enc_pairs(names, values) + rest == rest);
        assert(names == Seq::<Seq<u8>>::empty());
        assert(values == Seq::<Seq<u8>>::empty());
    } else {
        let n0 = names[0];
        let v0 = values[0];
        let tail = enc_pairs(names.drop_first(), values.drop_first());
        let s = enc_pairs(names, values) + rest;
        assert_seqs_equal!(s == enc_blob(n0) + (enc_blob(v0) + (tail + rest)));
        lemma_dec_blob_enc(n0, enc_blob(v0) + (tail + rest));
        lemma_dec_blob_enc(v0, tail + rest);
        lemma_dec_pairs_enc(names.drop_first(), values.drop_first(), rest);
        assert_seqs_equal!(seq![n0] + names.drop_first() == names);
        assert_seqs_equal!(seq![v0] + values.drop_first() == values);
    }
}

/// Successfully decoded pairs re-encode to exactly the bytes they were read
/// from, and pair as many names as values.
pub proof fn lemma_enc_pairs_dec(
    s: Seq<u8>,
    n: nat,
    names: Seq<Seq<u8>>,
    values: Seq<Seq<u8>>,
    rest: Seq<u8>,
)
    requires
        dec_pairs(s, n) == Some((names, values, rest)),
    ensures
        names.len() == n,
        values.len() == n,
        forall|i: int|
            #![trigger names[i]]
            #![trigger values[i]]
            0 <= i < names.len() ==> blob_wf(names[i]) && blob_wf(values[i]),
        enc_pairs(names, values) + rest == s,
        rest.len() <= s.len(),
    decreases n,
{
    if n == 0 {
        assert(names == Seq::<Seq<u8>>::empty());
        assert(values == Seq::<Seq<u8>>::empty());
        assert_seqs_equal!(enc_pairs(names, values) + rest == s);
    } else {
        let p1 = dec_blob(s)->Some_0;
        let name = p1.0;
        let r1 = p1.1;
        let p2 = dec_blob(r1)->Some_0;
        let value = p2.0;
        let r2 = p2.1;
        let p3 = dec_pairs(r2, (n - 1) as nat)->Some_0;
        let ns = p3.0;
        let vs = p3.1;
        assert(names == seq![name] + ns);
        assert(values == seq![value] + vs);
        lemma_enc_blob_dec(s, name, r1);
        lemma_enc_blob_dec(r1, value, r2);
        lemma_enc_pairs_dec(r2, (n - 1) as nat, ns, vs, rest);
        assert(names.drop_first() == ns) by {
            assert_seqs_equal!(names.drop_first() == ns);
        }
        assert(values.drop_first() == vs) by {
            assert_seqs_equal!(values.drop_first() == vs);
        }
        assert(names[0] == name);
        assert(values[0] == value);
        assert_seqs_equal!(enc_pairs(names, values) + rest == s);
    }
}

/// Appending one name/value pair appends exactly its two blobs.
pub proof fn lemma_enc_pairs_push(names: Seq<Seq<u8>>, values: Seq<Seq<u8>>, n: Seq<u8>, v: Seq<u8>)
    requires
        names.len() == values.len(),
    ensures
        enc_pairs(names.push(n), values.push(v)) == enc_pairs(names, values) + (enc_blob(n)
            + enc_blob(v)),
    decreases names.len(),
{
    if names.len() == 0 {
        assert(names.push(n)[0] == n);
        assert(values.push(v)[0] == v);
        assert_seqs_equal!(names.push(n).drop_first() == names);
        assert_seqs_equal!(values.push(v).drop_first() == values);
        assert_seqs_equal!(
            enc_pairs(names.push(n), values.push(v))
                == enc_pairs(names, values) + (enc_blob(n) + enc_blob(v))
        );
    } else {
        assert(names.push(n)[0] == names[0]);
        assert(values.push(v)[0] == values[0]);
        assert_seqs_equal!(names.push(n).drop_first() == names.drop_first().push(n));
        assert_seqs_equal!(values.push(v).drop_first() == values.drop_first().push(v));
        lemma_enc_pairs_push(names.drop_first(), values.drop_first(), n, v);
        assert_seqs_equal!(
            enc_pairs(names.push(n), values.push(v))
                == enc_pairs(names, values) + (enc_blob(n) + enc_blob(v))
        );
    }
}

/// An encoded record is never empty: it starts with its kind tag.
pub proof fn lemma_encode_op_len(op: Op)
    ensures
        encode_op(op).len() >= 1,
{
}

/// Decoding reads back exactly the record that encoding wrote, and leaves
/// exactly the trailing bytes.
pub proof fn lemma_dec_op_enc(op: Op, rest: Seq<u8>)
    requires
        op_wf(op),
    ensures
        decode_op(encode_op(op) + rest) == Some((op, rest)),
{
    lemma_auto_spec_u64_to_from_le_bytes();
    lemma_auto_spec_u32_to_from_le_bytes();
    let s = encode_op(op) + rest;
    match op {
        Op::Put { key, value } => {
            assert_seqs_equal!(s == seq![TAG_PUT] + (enc_blob(key) + (enc_blob(value) + rest)));
            assert(s[0] == TAG_PUT);
            assert_seqs_equal!(s.drop_first() == enc_blob(key) + (enc_blob(value) + rest));
            lemma_dec_blob_enc(key, enc_blob(value) + rest);
            lemma_dec_blob_enc(value, rest);
        },
        Op::PutCf { cf, key, value } => {
            let c = spec_u32_to_le_bytes(cf);
            assert_seqs_equal!(s == seq![TAG_PUT_CF] + (c + (enc_blob(key) + (enc_blob(value) + rest))));
            assert(s[0] == TAG_PUT_CF);
            let r0 = s.drop_first();
            assert_seqs_equal!(r0 == c + (enc_blob(key) + (enc_blob(value) + rest)));
            assert_seqs_equal!(r0.take(4) == c);
            assert(spec_u32_from_le_bytes(r0.take(4)) == cf);
            assert_seqs_equal!(r0.skip(4) == enc_blob(key) + (enc_blob(value) + rest));
            lemma_dec_blob_enc(key, enc_blob(value) + rest);
            lemma_dec_blob_enc(value, rest);
        },
        Op::Delete { key } => {
            assert_seqs_equal!(s == seq![TAG_DELETE] + (enc_blob(key) + rest));
            assert(s[0] == TAG_DELETE);
            assert_seqs_equal!(s.drop_first() == enc_blob(key) + rest);
            lemma_dec_blob_enc(key, rest);
        },
        Op::DeleteCf { cf, key } => {
            let c = spec_u32_to_le_bytes(cf);
            assert_seqs_equal!(s == seq![TAG_DELETE_CF] + (c + (enc_blob(key) + rest)));
            assert(s[0] == TAG_DELETE_CF);
            let r0 = s.drop_first();
            assert_seqs_equal!(r0 == c + (enc_blob(key) + rest));
            assert_seqs_equal!(r0.take(4) == c);
            assert(spec_u32_from_le_bytes(r0.take(4)) == cf);
            assert_seqs_equal!(r0.skip(4) == enc_blob(key) + rest);
            lemma_dec_blob_enc(key, rest);
        },
        Op::PutEntityCf { cf, key, names, values } => {
            let c = spec_u32_to_le_bytes(cf);
            let cnt = spec_u64_to_le_bytes(names.len() as u64);
            let pairs = enc_pairs(names, values);
            assert_seqs_equal!(s == seq![TAG_PUT_ENTITY_CF] + (c + (enc_blob(key) + (cnt + (pairs + rest)))));
            assert(s[0] == TAG_PUT_ENTITY_CF);
            let r0 = s.drop_first();
            assert_seqs_equal!(r0 == c + (enc_blob(key) + (cnt + (pairs + rest))));
            assert_seqs_equal!(r0.take(4) == c);
            assert(spec_u32_from_le_bytes(r0.take(4)) == cf);
            assert_seqs_equal!(r0.skip(4) == enc_blob(key) + (cnt + (pairs + rest)));
            lemma_dec_blob_enc(key, cnt + (pairs + rest));
            let r1 = cnt + (pairs + rest);
            assert(r1.len() >= 8);
            assert_seqs_equal!(r1.take(8) == cnt);
            assert(spec_u64_from_le_bytes(r1.take(8)) == names.len() as u64);
            assert_seqs_equal!(r1.skip(8) == pairs + rest);
            lemma_dec_pairs_enc(names, values, rest);
            assert((names.len() as u64) as nat == names.len());
        },
    }
}

/// A successfully decoded record re-encodes to exactly the bytes it was read
/// from, is well formed, and leaves a strictly shorter remainder.
pub proof fn lemma_enc_op_dec(s: Seq<u8>, op: Op, rest: Seq<u8>)
    requires
        decode_op(s) == Some((op, rest)),
    ensures
        op_wf(op),
        encode_op(op) + rest == s,
        rest.len() < s.len(),
{
    lemma_auto_spec_u64_to_from_le_bytes();
    lemma_auto_spec_u32_to_from_le_bytes();
    assert(s.len() > 0);
    let tag = s[0];
    let r0 = s.drop_first();
    if tag == TAG_PUT {
        let p1 = dec_blob(r0)->Some_0;
        let key = p1.0;
        let r1 = p1.1;
        let p2 = dec_blob(r1)->Some_0;
        let value = p2.0;
        let r2 = p2.1;
        lemma_enc_blob_dec(r0, key, r1);
        lemma_enc_blob_dec(r1, value, r2);
        assert(op == Op::Put { key, value } && rest == r2);
        assert_seqs_equal!(encode_op(op) + rest == s);
    } else if tag == TAG_PUT_CF {
        let cf = spec_u32_from_le_bytes(r0.take(4));
        let p1 = dec_blob(r0.skip(4))->Some_0;
        let key = p1.0;
        let r1 = p1.1;
        let p2 = dec_blob(r1)->Some_0;
        let value = p2.0;
        let r2 = p2.1;
        lemma_enc_blob_dec(r0.skip(4), key, r1);
        lemma_enc_blob_dec(r1, value, r2);
        assert(op == Op::PutCf { cf, key, value } && rest == r2);
        assert(spec_u32_to_le_bytes(cf) == r0.take(4));
        assert_seqs_equal!(encode_op(op) + rest == s);
    } else if tag == TAG_DELETE {
        let p1 = dec_blob(r0)->Some_0;
        let key = p1.0;
        let r1 = p1.1;
        lemma_enc_blob_dec(r0, key, r1);
        assert(op == Op::Delete { key } && rest == r1);
        assert_seqs_equal!(encode_op(op) + rest == s);
    } else if tag == TAG_DELETE_CF {
        let cf = spec_u32_from_le_bytes(r0.take(4));
        let p1 = dec_blob(r0.skip(4))->Some_0;
        let key = p1.0;
        let r1 = p1.1;
        lemma_enc_blob_dec(r0.skip(4), key, r1);
        assert(op == Op::DeleteCf { cf, key } && rest == r1);
        assert(spec_u32_to_le_bytes(cf) == r0.take(4));
        assert_seqs_equal!(encode_op(op) + rest == s);
    } else if tag == TAG_PUT_ENTITY_CF {
        let cf = spec_u32_from_le_bytes(r0.take(4));
        let p1 = dec_blob(r0.skip(4))->Some_0;
        let key = p1.0;
        let r1 = p1.1;
        lemma_enc_blob_dec(r0.skip(4), key, r1);
        let n = spec_u64_from_le_bytes(r1.take(8)) as nat;
        let p3 = dec_pairs(r1.skip(8), n)->Some_0;
        let names = p3.0;
        let values = p3.1;
        lemma_enc_pairs_dec(r1.skip(8), n, names, values, rest);
        assert(op == Op::PutEntityCf { cf, key, names, values });
        assert(spec_u32_to_le_bytes(cf) == r0.take(4));
        assert(names.len() as u64 == spec_u64_from_le_bytes(r1.take(8)));
        assert(spec_u64_to_le_bytes(names.len() as u64) == r1.take(8));
        assert_seqs_equal!(r1 == r1.take(8) + r1.skip(8));
        assert_seqs_equal!(r0 == r0.take(4) + r0.skip(4));
        assert_seqs_equal!(s == seq![s[0]] + r0);
        assert(enc_blob(key) + r1 == r0.skip(4));
        assert(enc_pairs(names, values) + rest == r1.skip(8));
        assert_seqs_equal!(encode_op(op) + rest == s);
    } else {
        assert(false);
    }
}

/// Appending one record to a log appends exactly its encoding.
pub proof fn lemma_encode_ops_push(ops: Seq<Op>, op: Op)
    ensures
        encode_ops(ops.push(op)) == encode_ops(ops) + encode_op(op),
    decreases ops.len(),
{
    if ops.len() == 0 {
        assert(ops.push(op)[0] == op);
        assert_seqs_equal!(ops.push(op).drop_first() == ops);
        assert_seqs_equal!(encode_ops(ops.push(op)) == encode_ops(ops) + encode_op(op));
    } else {
        assert(ops.push(op)[0] == ops[0]);
        assert_seqs_equal!(ops.push(op).drop_first() == ops.drop_first().push(op));
        lemma_encode_ops_push(ops.drop_first(), op);
        assert_seqs_equal!(encode_ops(ops.push(op)) == encode_ops(ops) + encode_op(op));
    }
}

/// A log holds at least one byte per record it encodes.
pub proof fn lemma_encode_ops_len(ops: Seq<Op>)
    ensures
        encode_ops(ops).len() >= ops.len(),
    decreases ops.len(),
{
    if ops.len() > 0 {
        lemma_encode_op_len(ops[0]);
        lemma_encode_ops_len(ops.drop_first());
    }
}

/// The batch round-trip law, encode side: decoding an encoded log returns
/// exactly the operations that were recorded, in order. Together with
/// [`lemma_dec_ops_enc`]'s converse below, the format is byte-exact: a log
/// decodes to at most one operation sequence, and that sequence re-encodes
/// to the identical bytes.
pub proof fn lemma_dec_ops_enc(ops: Seq<Op>)
    requires
        ops_wf(ops),
    ensures
        decode_ops(encode_ops(ops)) == Some(ops),
    decreases ops.len(),
{
    if ops.len() == 0 {
    } else {
        let tail = encode_ops(ops.drop_first());
        lemma_dec_op_enc(ops[0], tail);
        lemma_encode_op_len(ops[0]);
        assert(ops_wf(ops.drop_first()));
        lemma_dec_ops_enc(ops.drop_first());
        let s = encode_ops(ops);
        assert(s == encode_op(ops[0]) + tail);
        assert(s.len() >= 1 + tail.len());
        assert(decode_op(s) == Some((ops[0], tail)));
        assert_seqs_equal!(seq![ops[0]] + ops.drop_first() == ops);
    }
}

/// The batch round-trip law, decode side: a log that decodes re-encodes to
/// the identical bytes, and every decoded operation is well formed.
pub proof fn lemma_enc_ops_dec(s: Seq<u8>, ops: Seq<Op>)
    requires
        decode_ops(s) == Some(ops),
    ensures
        ops_wf(ops),
        encode_ops(ops) == s,
        ops.len() <= s.len(),
    decreases s.len(),
{
    if s.len() == 0 {
        assert(ops == Seq::<Op>::empty());
    } else {
        let p = decode_op(s)->Some_0;
        let op = p.0;
        let rest = p.1;
        lemma_enc_op_dec(s, op, rest);
        let tail = decode_ops(rest)->Some_0;
        assert(ops == seq![op] + tail);
        lemma_enc_ops_dec(rest, tail);
        assert(ops[0] == op);
        assert_seqs_equal!(ops.drop_first() == tail);
        assert(forall|i: int| 0 <= i < ops.len() ==> op_wf(#[trigger] ops[i])) by {
            assert(forall|i: int| 1 <= i < ops.len() ==> ops[i] == tail[i - 1]);
        }
        assert_seqs_equal!(encode_ops(ops) == s);
    }
}

} // verus!
