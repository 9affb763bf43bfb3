//! Write batches: growable in-memory logs of pending mutations in the binary
//! record format of [`crate::encoding`], with append, clear, export to bytes,
//! reconstruction from bytes, and in-order replay through a visitor.

use vstd::prelude::*;
use vstd::bytes::*;
use vstd::slice::*;
use vstd::assert_seqs_equal;

use crate::encoding::{
    blob_wf, dec_blob, dec_pairs, decode_op, decode_ops, enc_blob, enc_pairs, encode_op,
    encode_ops, lemma_dec_ops_enc, lemma_enc_ops_dec, lemma_enc_pairs_push,
    lemma_encode_ops_len, lemma_encode_ops_push, op_wf, ops_wf, Op, TAG_DELETE, TAG_DELETE_CF,
    TAG_PUT, TAG_PUT_CF, TAG_PUT_ENTITY_CF,
};
use crate::error::Error;

verus! {

/// An opaque column-family token. The database-management layer hands these
/// out; a batch records them unmodified.
#[derive(Clone, Copy, Debug, PartialEq, Eq, Structural)]
pub struct ColumnFamily {
    pub id: u32,
}

/// One decoded batch record, as executable data. Its view is the
/// mathematical [`Op`].
pub enum BatchOp {
    Put { key: Vec<u8>, value: Vec<u8> },
    PutCf { cf: u32, key: Vec<u8>, value: Vec<u8> },
    Delete { key: Vec<u8> },
    DeleteCf { cf: u32, key: Vec<u8> },
    PutEntityCf { cf: u32, key: Vec<u8>, names: Vec<Vec<u8>>, values: Vec<Vec<u8>> },
}

impl View for BatchOp {
    type V = Op;

    open spec fn view(&self) -> Op {
        match self {
            BatchOp::Put { key, value } => Op::Put { key: key@, value: value@ },
            BatchOp::PutCf { cf, key, value } => Op::PutCf {
                cf: *cf,
                key: key@,
                value: value@,
            },
            BatchOp::Delete { key } => Op::Delete { key: key@ },
            BatchOp::DeleteCf { cf, key } => Op::DeleteCf { cf: *cf, key: key@ },
            BatchOp::PutEntityCf { cf, key, names, values } => Op::PutEntityCf {
                cf: *cf,
                key: key@,
                names: names.deep_view(),
                values: values.deep_view(),
            },
        }
    }
}

impl DeepView for BatchOp {
    type V = Op;

    open spec fn deep_view(&self) -> Op {
        self.view()
    }
}

/// Appends the eight little-endian bytes of `x`.
fn append_u64(buf: &mut Vec<u8>, x: u64)
    ensures
        final(buf)@ == old(buf)@ + spec_u64_to_le_bytes(x),
{
    let mut t = u64_to_le_bytes(x);
    buf.append(&mut t);
}

/// Appends the four little-endian bytes of `x`.
fn append_u32(buf: &mut Vec<u8>, x: u32)
    ensures
        final(buf)@ == old(buf)@ + spec_u32_to_le_bytes(x),
{
    let mut t = u32_to_le_bytes(x);
    buf.append(&mut t);
}

/// Appends a length-prefixed byte string.
fn append_blob(buf: &mut Vec<u8>, b: &[u8])
    ensures
        final(buf)@ == old(buf)@ + enc_blob(b@),
        b@.len() <= u64::MAX,
{
    let n = b.len();
    append_u64(buf, n as u64);
    let mut t = slice_to_vec(b);
    buf.append(&mut t);
    proof {
        assert_seqs_equal!(buf@ == old(buf)@ + enc_blob(b@));
    }
}

/// Reads the eight little-endian bytes at `pos` as a `u64`.
fn read_u64(buf: &[u8], pos: usize) -> (r: u64)
    requires
        pos + 8 <= buf@.len(),
        buf@.len() <= usize::MAX,
    ensures
        r == spec_u64_from_le_bytes(buf@.subrange(pos as int, pos as int + 8)),
{
    u64_from_le_bytes(slice_subrange(buf, pos, pos + 8))
}

/// Reads the four little-endian bytes at `pos` as a `u32`.
fn read_u32(buf: &[u8], pos: usize) -> (r: u32)
    requires
        pos + 4 <= buf@.len(),
        buf@.len() <= usize::MAX,
    ensures
        r == spec_u32_from_le_bytes(buf@.subrange(pos as int, pos as int + 4)),
{
    u32_from_le_bytes(slice_subrange(buf, pos, pos + 4))
}

/// Reads the length-prefixed byte string at `pos`; returns the string and
/// the position just past it, or `None` where the input runs out first.
fn read_blob(buf: &[u8], pos: usize) -> (r: Option<(Vec<u8>, usize)>)
    requires
        pos <= buf@.len(),
    ensures
        match r {
            Some(br) => {
                &&& dec_blob(buf@.skip(pos as int)) == Some((br.0@, buf@.skip(br.1 as int)))
                &&& pos < br.1 <= buf@.len()
            },
            None => dec_blob(buf@.skip(pos as int)) is None,
        },
{
    let remaining = buf.len() - pos;
    if remaining < 8 {
        return None;
    }
    proof {
        assert_seqs_equal!(
            buf@.skip(pos as int).take(8) == buf@.subrange(pos as int, pos as int + 8)
        );
    }
    let n = read_u64(buf, pos);
    if n > (remaining - 8) as u64 {
        return None;
    }
    let nn = n as usize;
    let end = pos + 8 + nn;
    let blob = slice_to_vec(slice_subrange(buf, pos + 8, end));
    proof {
        assert_seqs_equal!(
            buf@.skip(pos as int).subrange(8, 8 + nn as int)
                == buf@.subrange(pos as int + 8, end as int)
        );
        assert_seqs_equal!(buf@.skip(pos as int).skip(8 + nn as int) == buf@.skip(end as int));
    }
    Some((blob, end))
}

/// Decodes the record at `pos`; returns the operation and the position just
/// past the record, or `None` where no whole record can be decoded there.
#[verifier::loop_isolation(false)]
fn decode_record(buf: &[u8], pos: usize) -> (r: Option<(BatchOp, usize)>)
    requires
        pos <= buf@.len(),
    ensures
        match r {
            Some(pr) => {
                &&& decode_op(buf@.skip(pos as int)) == Some((pr.0@, buf@.skip(pr.1 as int)))
                &&& pos < pr.1 <= buf@.len()
            },
            None => decode_op(buf@.skip(pos as int)) is None,
        },
{
    if pos >= buf.len() {
        return None;
    }
    let ghost s = buf@.skip(pos as int);
    let tag = *slice_index_get(buf, pos);
    let p1 = pos + 1;
    proof {
        assert(s[0] == buf@[pos as int]);
        assert_seqs_equal!(s.drop_first() == buf@.skip(p1 as int));
    }
    if tag == TAG_PUT {
        match read_blob(buf, p1) {
            None => None,
            Some((key, p2)) => match read_blob(buf, p2) {
                None => None,
                Some((value, p3)) => Some((BatchOp::Put { key, value }, p3)),
            },
        }
    } else if tag == TAG_PUT_CF {
        if buf.len() - p1 < 4 {
            return None;
        }
        proof {
            assert_seqs_equal!(
                buf@.skip(p1 as int).take(4) == buf@.subrange(p1 as int, p1 as int + 4)
            );
            assert_seqs_equal!(buf@.skip(p1 as int).skip(4) == buf@.skip(p1 as int + 4));
        }
        let cf = read_u32(buf, p1);
        match read_blob(buf, p1 + 4) {
            None => None,
            Some((key, p2)) => match read_blob(buf, p2) {
                None => None,
                Some((value, p3)) => Some((BatchOp::PutCf { cf, key, value }, p3)),
            },
        }
    } else if tag == TAG_DELETE {
        match read_blob(buf, p1) {
            None => None,
            Some((key, p2)) => Some((BatchOp::Delete { key }, p2)),
        }
    } else if tag == TAG_DELETE_CF {
        if buf.len() - p1 < 4 {
            return None;
        }
        proof {
            assert_seqs_equal!(
                buf@.skip(p1 as int).take(4) == buf@.subrange(p1 as int, p1 as int + 4)
            );
            assert_seqs_equal!(buf@.skip(p1 as int).skip(4) == buf@.skip(p1 as int + 4));
        }
        let cf = read_u32(buf, p1);
        match read_blob(buf, p1 + 4) {
            None => None,
            Some((key, p2)) => Some((BatchOp::DeleteCf { cf, key }, p2)),
        }
    } else if tag == TAG_PUT_ENTITY_CF {
        if buf.len() - p1 < 4 {
            return None;
        }
        proof {
            assert_seqs_equal!(
                buf@.skip(p1 as int).take(4) == buf@.subrange(p1 as int, p1 as int + 4)
            );
            assert_seqs_equal!(buf@.skip(p1 as int).skip(4) == buf@.skip(p1 as int + 4));
        }
        let cf = read_u32(buf, p1);
        match read_blob(buf, p1 + 4) {
            None => None,
            Some((key, p2)) => {
                if buf.len() - p2 < 8 {
                    return None;
                }
                proof {
                    assert_seqs_equal!(
                        buf@.skip(p2 as int).take(8) == buf@.subrange(p2 as int, p2 as int + 8)
                    );
                    assert_seqs_equal!(buf@.skip(p2 as int).skip(8) == buf@.skip(p2 as int + 8));
                }
                let n = read_u64(buf, p2);
                let start = p2 + 8;
                let mut names: Vec<Vec<u8>> = Vec::new();
                let mut values: Vec<Vec<u8>> = Vec::new();
                let mut cur = start;
                let mut i: u64 = 0;
                proof {
                    let d = dec_pairs(buf@.skip(start as int), n as nat);
                    if d is Some {
                        let t = d->Some_0;
                        assert_seqs_equal!(Seq::<Seq<u8>>::empty() + t.0 == t.0);
                        assert_seqs_equal!(Seq::<Seq<u8>>::empty() + t.1 == t.1);
                    }
                }
                while i < n
                    invariant
                        i <= n,
                        start <= cur <= buf@.len(),
                        names.deep_view().len() == i,
                        values.deep_view().len() == i,
                        match dec_pairs(buf@.skip(cur as int), (n - i) as nat) {
                            Some(t) => dec_pairs(buf@.skip(start as int), n as nat) == Some(
                                (names.deep_view() + t.0, values.deep_view() + t.1, t.2),
                            ),
                            None => dec_pairs(buf@.skip(start as int), n as nat) is None,
                        },
                    decreases n - i,
                {
                    match read_blob(buf, cur) {
                        None => {
                            return None;
                        },
                        Some((name, c2)) => match read_blob(buf, c2) {
                            None => {
                                return None;
                            },
                            Some((value, c3)) => {
                                let ghost m = (n - i) as nat;
                                let ghost name_v = name@;
                                let ghost value_v = value@;
                                let ghost old_names_dv = names.deep_view();
                                let ghost old_values_dv = values.deep_view();
                                proof {
                                    let d3 = dec_pairs(buf@.skip(c3 as int), (m - 1) as nat);
                                    if d3 is Some {
                                        let t = d3->Some_0;
                                        assert_seqs_equal!(
                                            old_names_dv + (seq![name_v] + t.0)
                                                == old_names_dv.push(name_v) + t.0
                                        );
                                        assert_seqs_equal!(
                                            old_values_dv + (seq![value_v] + t.1)
                                                == old_values_dv.push(value_v) + t.1
                                        );
                                    }
                                }
                                names.push(name);
                                values.push(value);
                                proof {
                                    assert_seqs_equal!(names.deep_view() == old_names_dv.push(name_v));
                                    assert_seqs_equal!(
                                        values.deep_view() == old_values_dv.push(value_v)
                                    );
                                }
                                cur = c3;
                                i = i + 1;
                            },
                        },
                    }
                }
                proof {
                    assert(dec_pairs(buf@.skip(cur as int), (n - i) as nat) == Some(
                        (Seq::<Seq<u8>>::empty(), Seq::<Seq<u8>>::empty(), buf@.skip(cur as int)),
                    ));
                    assert_seqs_equal!(names.deep_view() + Seq::<Seq<u8>>::empty() == names.deep_view());
                    assert_seqs_equal!(
                        values.deep_view() + Seq::<Seq<u8>>::empty() == values.deep_view()
                    );
                }
                Some((BatchOp::PutEntityCf { cf, key, names, values }, cur))
            },
        }
    } else {
        None
    }
}

/// Decodes a whole log into its records, in order, or `None` where some
/// record cannot be decoded or trailing bytes remain.
#[verifier::loop_isolation(false)]
fn decode_all(buf: &[u8]) -> (r: Option<Vec<BatchOp>>)
    ensures
        match r {
            Some(v) => decode_ops(buf@) == Some(v.deep_view()),
            None => decode_ops(buf@) is None,
        },
{
    let mut out: Vec<BatchOp> = Vec::new();
    let mut pos: usize = 0;
    proof {
        assert_seqs_equal!(buf@.skip(0) == buf@);
        let d = decode_ops(buf@);
        if d is Some {
            let t = d->Some_0;
            assert_seqs_equal!(Seq::<Op>::empty() + t == t);
        }
    }
    while pos < buf.len()
        invariant
            pos <= buf@.len(),
            match decode_ops(buf@.skip(pos as int)) {
                Some(t) => decode_ops(buf@) == Some(out.deep_view() + t),
                None => decode_ops(buf@) is None,
            },
        decreases buf@.len() - pos,
    {
        match decode_record(buf, pos) {
            None => {
                return None;
            },
            Some((op, p2)) => {
                let ghost op_v = op@;
                let ghost old_out_dv = out.deep_view();
                proof {
                    let d2 = decode_ops(buf@.skip(p2 as int));
                    if d2 is Some {
                        let t = d2->Some_0;
                        assert_seqs_equal!(old_out_dv + (seq![op_v] + t) == old_out_dv.push(op_v) + t);
                    }
                }
                out.push(op);
                proof {
                    assert_seqs_equal!(out.deep_view() == old_out_dv.push(op_v));
                }
                pos = p2;
            },
        }
    }
    proof {
        assert(buf@.skip(pos as int) == Seq::<u8>::empty()) by {
            assert_seqs_equal!(buf@.skip(pos as int) == Seq::<u8>::empty());
        }
        assert_seqs_equal!(out.deep_view() + Seq::<Op>::empty() == out.deep_view());
    }
    Some(out)
}

/// A staged, atomically applicable group of mutations, held as a binary log
/// plus an operation counter. The log is always the exact encoding of the
/// recorded operation sequence, which is the batch's view.
pub struct WriteBatch {
    buf: Vec<u8>,
    count: usize,
    ops: Ghost<Seq<Op>>,
}

impl View for WriteBatch {
    type V = Seq<Op>;

    closed spec fn view(&self) -> Seq<Op> {
        self.ops@
    }
}

impl WriteBatch {
    /// Internal consistency: the byte log is exactly the encoding of the
    /// recorded operations, the counter is their number, and every recorded
    /// operation is encodable. Constructors establish this and every method
    /// preserves it.
    pub closed spec fn wf(&self) -> bool {
        &&& self.buf@ == encode_ops(self.ops@)
        &&& self.count == self.ops@.len()
        &&& ops_wf(self.ops@)
    }

    /// Every operation a well-formed batch records is encodable.
    pub proof fn lemma_ops_wf(&self)
        requires
            self.wf(),
        ensures
            ops_wf(self@),
    {
    }

    /// Round-trip law: a batch's exported log decodes back to exactly the
    /// operations the batch recorded, in order. Reloading an export therefore
    /// reconstructs the same operation sequence, and re-exporting it the
    /// identical bytes.
    pub proof fn lemma_round_trip(&self)
        requires
            self.wf(),
        ensures
            decode_ops(encode_ops(self@)) == Some(self@),
    {
        lemma_dec_ops_enc(self@);
    }

    /// A fresh, empty batch. Its log is the encoding of no operations: the
    /// empty byte string.
    pub fn new() -> (r: WriteBatch)
        ensures
            r.wf(),
            r@ == Seq::<Op>::empty(),
    {
        WriteBatch { buf: Vec::new(), count: 0, ops: Ghost(Seq::empty()) }
    }

    /// The number of recorded operations.
    pub fn len(&self) -> (r: usize)
        requires
            self.wf(),
        ensures
            r == self@.len(),
    {
        self.count
    }

    /// Whether no operation is recorded.
    pub fn is_empty(&self) -> (r: bool)
        requires
            self.wf(),
        ensures
            r == (self@.len() == 0),
    {
        self.count == 0
    }

    /// Resets the batch to empty: no operations, and the empty log. Byte
    /// buffers exported earlier are independent copies and stay untouched.
    pub fn clear(&mut self)
        ensures
            final(self).wf(),
            final(self)@ == Seq::<Op>::empty(),
    {
        self.buf.clear();
        self.count = 0;
        self.ops = Ghost(Seq::empty());
    }

    /// The exact current encoded log, as an independent copy. Exporting does
    /// not mutate or consume the batch.
    pub fn data(&self) -> (r: Vec<u8>)
        requires
            self.wf(),
        ensures
            r@ == encode_ops(self@),
    {
        slice_to_vec(self.buf.as_slice())
    }

    /// Appends an upsert record for `key`/`value`. Always succeeds; empty
    /// key and value bytes are permitted.
    pub fn put(&mut self, key: &[u8], value: &[u8])
        requires
            old(self).wf(),
        ensures
            final(self).wf(),
            final(self)@ == old(self)@.push(Op::Put { key: key@, value: value@ }),
    {
        let ghost op = Op::Put { key: key@, value: value@ };
        proof {
            lemma_encode_ops_len(self.ops@);
        }
        self.buf.push(TAG_PUT);
        append_blob(&mut self.buf, key);
        append_blob(&mut self.buf, value);
        let n = self.buf.len();
        proof {
            assert(self.count < n);
        }
        self.count = self.count + 1;
        self.ops = Ghost(old(self).ops@.push(op));
        proof {
            lemma_encode_ops_push(old(self).ops@, op);
            assert_seqs_equal!(self.buf@ == encode_ops(self.ops@));
        }
    }

    /// Appends an upsert record for `key`/`value`, scoped to the column
    /// family `cf`.
    pub fn put_cf(&mut self, cf: &ColumnFamily, key: &[u8], value: &[u8])
        requires
            old(self).wf(),
        ensures
            final(self).wf(),
            final(self)@ == old(self)@.push(
                Op::PutCf { cf: cf.id, key: key@, value: value@ },
            ),
    {
        let ghost op = Op::PutCf { cf: cf.id, key: key@, value: value@ };
        proof {
            lemma_encode_ops_len(self.ops@);
        }
        self.buf.push(TAG_PUT_CF);
        append_u32(&mut self.buf, cf.id);
        append_blob(&mut self.buf, key);
        append_blob(&mut self.buf, value);
        let n = self.buf.len();
        proof {
            assert(self.count < n);
        }
        self.count = self.count + 1;
        self.ops = Ghost(old(self).ops@.push(op));
        proof {
            lemma_encode_ops_push(old(self).ops@, op);
            assert_seqs_equal!(self.buf@ == encode_ops(self.ops@));
        }
    }

    /// Appends a deletion record for `key`.
    pub fn delete(&mut self, key: &[u8])
        requires
            old(self).wf(),
        ensures
            final(self).wf(),
            final(self)@ == old(self)@.push(Op::Delete { key: key@ }),
    {
        let ghost op = Op::Delete { key: key@ };
        proof {
            lemma_encode_ops_len(self.ops@);
        }
        self.buf.push(TAG_DELETE);
        append_blob(&mut self.buf, key);
        let n = self.buf.len();
        proof {
            assert(self.count < n);
        }
        self.count = self.count + 1;
        self.ops = Ghost(old(self).ops@.push(op));
        proof {
            lemma_encode_ops_push(old(self).ops@, op);
            assert_seqs_equal!(self.buf@ == encode_ops(self.ops@));
        }
    }

    /// Appends a deletion record for `key`, scoped to the column family
    /// `cf`.
    pub fn delete_cf(&mut self, cf: &ColumnFamily, key: &[u8])
        requires
            old(self).wf(),
        ensures
            final(self).wf(),
            final(self)@ == old(self)@.push(Op::DeleteCf { cf: cf.id, key: key@ }),
    {
        let ghost op = Op::DeleteCf { cf: cf.id, key: key@ };
        proof {
            lemma_encode_ops_len(self.ops@);
        }
        self.buf.push(TAG_DELETE_CF);
        append_u32(&mut self.buf, cf.id);
        append_blob(&mut self.buf, key);
        let n = self.buf.len();
        proof {
            assert(self.count < n);
        }
        self.count = self.count + 1;
        self.ops = Ghost(old(self).ops@.push(op));
        proof {
            lemma_encode_ops_push(old(self).ops@, op);
            assert_seqs_equal!(self.buf@ == encode_ops(self.ops@));
        }
    }
    /// Appends a wide-column entity upsert: `names` and `values` are
    /// equal-length ordered lists of byte strings, paired positionally.
    /// Fails with `InvalidArgument`, leaving the batch unchanged, exactly
    /// when the counts differ; nothing is ever partially appended.
    #[verifier::loop_isolation(false)]
    pub fn put_entity_cf(
        &mut self,
        cf: &ColumnFamily,
        key: &[u8],
        names: &Vec<Vec<u8>>,
        values: &Vec<Vec<u8>>,
    ) -> (r: Result<(), Error>)
        requires
            old(self).wf(),
        ensures
            names@.len() == values@.len() ==> (r is Ok && final(self).wf() && final(self)@ == old(
                self,
            )@.push(
                Op::PutEntityCf {
                    cf: cf.id,
                    key: key@,
                    names: names.deep_view(),
                    values: values.deep_view(),
                },
            )),
            names@.len() != values@.len() ==> (r matches Err(e) && e == Error::InvalidArgument
                && *final(self) == *old(self)),
    {
        if names.len() != values.len() {
            return Err(Error::InvalidArgument);
        }
        let ghost op = Op::PutEntityCf {
            cf: cf.id,
            key: key@,
            names: names.deep_view(),
            values: values.deep_view(),
        };
        proof {
            lemma_encode_ops_len(self.ops@);
        }
        self.buf.push(TAG_PUT_ENTITY_CF);
        append_u32(&mut self.buf, cf.id);
        append_blob(&mut self.buf, key);
        append_u64(&mut self.buf, names.len() as u64);
        let ghost start = self.buf@;
        let ghost nv = names.deep_view();
        let ghost vv = values.deep_view();
        let mut i: usize = 0;
        while i < names.len()
            invariant
                i <= names@.len(),
                self.buf@ == start + enc_pairs(nv.take(i as int), vv.take(i as int)),
                self.ops == old(self).ops,
                self.count == old(self).count,
                forall|j: int| 0 <= j < i ==> blob_wf(#[trigger] nv[j]),
                forall|j: int| 0 <= j < i ==> blob_wf(#[trigger] vv[j]),
            decreases names@.len() - i,
        {
            proof {
                assert(nv.take(i as int).len() == vv.take(i as int).len());
                lemma_enc_pairs_push(nv.take(i as int), vv.take(i as int), nv[i as int], vv[
                    i as int
                ]);
                assert_seqs_equal!(nv.take(i as int).push(nv[i as int]) == nv.take(i as int + 1));
                assert_seqs_equal!(vv.take(i as int).push(vv[i as int]) == vv.take(i as int + 1));
                assert(names@[i as int]@ == nv[i as int]);
                assert(values@[i as int]@ == vv[i as int]);
            }
            let name_i: &Vec<u8> = &names[i];
            let value_i: &Vec<u8> = &values[i];
            append_blob(&mut self.buf, name_i.as_slice());
            append_blob(&mut self.buf, value_i.as_slice());
            proof {
                assert(name_i@ == nv[i as int]);
                assert(value_i@ == vv[i as int]);
                assert(blob_wf(nv[i as int]));
                assert(blob_wf(vv[i as int]));
                assert forall|j: int| 0 <= j < i + 1 implies blob_wf(nv[j]) by {
                    if j < i as int {
                    } else {
                        assert(j == i as int);
                    }
                }
                assert forall|j: int| 0 <= j < i + 1 implies blob_wf(vv[j]) by {
                    if j < i as int {
                    } else {
                        assert(j == i as int);
                    }
                }
                assert_seqs_equal!(
                    self.buf@ == start + enc_pairs(nv.take(i as int + 1), vv.take(i as int + 1))
                );
            }
            i = i + 1;
        }
        proof {
            assert(nv.len() == names@.len());
            assert(vv.len() == values@.len());
            assert_seqs_equal!(nv.take(names@.len() as int) == nv);
            assert_seqs_equal!(vv.take(values@.len() as int) == vv);
            assert(blob_wf(key@));
            assert(nv.len() <= usize::MAX);
            assert(usize::MAX <= u64::MAX);
            assert(op_wf(op));
            assert_seqs_equal!(self.buf@ == old(self).buf@ + encode_op(op));
            lemma_encode_ops_len(self.ops@);
        }
        let n = self.buf.len();
        proof {
            assert(self.count < n);
        }
        self.count = self.count + 1;
        self.ops = Ghost(old(self).ops@.push(op));
        proof {
            lemma_encode_ops_push(old(self).ops@, op);
            assert_seqs_equal!(self.buf@ == encode_ops(self.ops@));
        }
        Ok(())
    }

    /// Reconstructs a batch whose encoded log is exactly `data`. Fails with
    /// `Corrupt` exactly when `data` is not a whole, well-formed record
    /// sequence; otherwise the reconstructed batch records exactly the
    /// operations that `data` encodes.
    pub fn from_data(data: &[u8]) -> (r: Result<WriteBatch, Error>)
        ensures
            decode_ops(data@) matches Some(ops) ==> (r matches Ok(b) && b.wf() && b@ == ops),
            decode_ops(data@) is None ==> (r matches Err(e) && e == Error::Corrupt),
    {
        match decode_all(data) {
            None => Err(Error::Corrupt),
            Some(v) => {
                proof {
                    lemma_enc_ops_dec(data@, v.deep_view());
                }
                Ok(
                    WriteBatch {
                        buf: slice_to_vec(data),
                        count: v.len(),
                        ops: Ghost(v.deep_view()),
                    },
                )
            },
        }
    }

    /// Decodes the log into its records, in log order: the replay sequence.
    /// The records are exactly the operations the batch has recorded.
    pub fn ops(&self) -> (r: Vec<BatchOp>)
        requires
            self.wf(),
        ensures
            r.deep_view() == self@,
    {
        proof {
            lemma_dec_ops_enc(self.ops@);
        }
        match decode_all(self.buf.as_slice()) {
            Some(v) => v,
            None => {
                proof {
                    assert(false);
                }
                vstd::pervasive::unreached()
            },
        }
    }

    /// Replays the log start to end: decodes each record and invokes the
    /// visitor callback of its kind, once per recorded operation, in log
    /// order. Does not mutate the batch.
    pub fn iterate<V: WriteBatchIterator>(&self, visitor: &mut V)
        requires
            self.wf(),
    {
        let mut records = self.ops();
        while records.len() > 0
            decreases records.len(),
        {
            let op = records.remove(0);
            match op {
                BatchOp::Put { key, value } => visitor.put(key, value),
                BatchOp::PutCf { cf, key, value } => visitor.put(key, value),
                BatchOp::Delete { key } => visitor.delete(key),
                BatchOp::DeleteCf { cf, key } => visitor.delete(key),
                BatchOp::PutEntityCf { cf, key, names, values } => visitor.put_entity(
                    key,
                    names,
                    values,
                ),
            }
        }
    }
}

/// The replay callbacks: a batch's `iterate` hands every decoded record to
/// one of these, in log order. Upserts arrive through `put` and deletions
/// through `delete`, whether or not the record was scoped to a column
/// family; wide-column entity upserts arrive through `put_entity` with their
/// positionally paired names and values.
pub trait WriteBatchIterator {
    /// Called once per upsert record, with the key and value bytes.
    fn put(&mut self, key: Vec<u8>, value: Vec<u8>);

    /// Called once per deletion record, with the key bytes.
    fn delete(&mut self, key: Vec<u8>);

    /// Called once per wide-column entity upsert record, with the key and
    /// the paired column names and values.
    fn put_entity(&mut self, key: Vec<u8>, names: Vec<Vec<u8>>, values: Vec<Vec<u8>>);
}

impl Default for WriteBatch {
    /// A fresh, empty batch.
    fn default() -> (r: WriteBatch)
        ensures
            r.wf(),
            r@ == Seq::<Op>::empty(),
    {
        WriteBatch::new()
    }
}

} // verus!
