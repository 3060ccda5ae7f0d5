//! The binary document model.
//!
//! A document is an ordered mapping from short byte-string names to typed
//! values; the reserved name `_id` holds the twelve-byte object id that also
//! ends the document's key. Documents serialise to a tagged, length-prefixed
//! binary form, losslessly: decoding an encoded document gives the document
//! back. Field order is the caller's insertion order, and equality is by the
//! canonical bytes. Text and name bytes are carried as they are given;
//! numbers are fixed-width little-endian; a double travels as its raw bit
//! pattern, opaque to the store.

use vstd::prelude::*;

verus! {

/// A typed field value.
pub enum Value {
    /// A twelve-byte object id.
    Id(Vec<u8>),
    /// Text, as its bytes.
    Str(Vec<u8>),
    /// Opaque binary data.
    Bin(Vec<u8>),
    Bool(bool),
    I32(i32),
    I64(i64),
    /// A 64-bit floating-point number, carried as its raw bit pattern.
    Double(u64),
    /// A 128-bit decimal, carried as its sixteen raw bytes.
    Dec(Vec<u8>),
    /// A timestamp.
    Ts(u64),
    /// A date-time, as a signed offset.
    Dt(i64),
    Null,
    /// A nested document.
    Doc(Document),
    /// An array of values.
    Arr(Vec<Value>),
}

/// An ordered mapping from field names to values.
pub struct Document {
    pub fields: Vec<(Vec<u8>, Value)>,
}

/// The view of a field value.
pub enum SpecValue {
    Id(Seq<u8>),
    Str(Seq<u8>),
    Bin(Seq<u8>),
    Bool(bool),
    I32(i32),
    I64(i64),
    Double(u64),
    Dec(Seq<u8>),
    Ts(u64),
    Dt(i64),
    Null,
    Doc(Seq<(Seq<u8>, SpecValue)>),
    Arr(Seq<SpecValue>),
}

/// The view of a value.
pub open spec fn view_value(v: Value) -> SpecValue
    decreases v,
{
    match v {
        Value::Id(b) => SpecValue::Id(b@),
        Value::Str(b) => SpecValue::Str(b@),
        Value::Bin(b) => SpecValue::Bin(b@),
        Value::Bool(b) => SpecValue::Bool(b),
        Value::I32(x) => SpecValue::I32(x),
        Value::I64(x) => SpecValue::I64(x),
        Value::Double(x) => SpecValue::Double(x),
        Value::Dec(b) => SpecValue::Dec(b@),
        Value::Ts(x) => SpecValue::Ts(x),
        Value::Dt(x) => SpecValue::Dt(x),
        Value::Null => SpecValue::Null,
        Value::Doc(d) => SpecValue::Doc(view_fields(d.fields@)),
        Value::Arr(vs) => SpecValue::Arr(view_arr(vs@)),
    }
}

/// The view of a field list.
pub open spec fn view_fields(fs: Seq<(Vec<u8>, Value)>) -> Seq<(Seq<u8>, SpecValue)>
    decreases fs,
{
    if fs.len() == 0 {
        Seq::empty()
    } else {
        seq![(fs[0].0@, view_value(fs[0].1))] + view_fields(fs.drop_first())
    }
}

/// The view of a value list.
pub open spec fn view_arr(vs: Seq<Value>) -> Seq<SpecValue>
    decreases vs,
{
    if vs.len() == 0 {
        Seq::empty()
    } else {
        seq![view_value(vs[0])] + view_arr(vs.drop_first())
    }
}

/// The view of a document.
pub open spec fn view_doc(d: Document) -> Seq<(Seq<u8>, SpecValue)> {
    view_fields(d.fields@)
}

/// Well-formed: an object id is twelve bytes, a decimal sixteen.
pub open spec fn wf_value(v: SpecValue) -> bool
    decreases v,
{
    match v {
        SpecValue::Id(b) => b.len() == 12,
        SpecValue::Dec(b) => b.len() == 16,
        SpecValue::Str(b) => b.len() <= u64::MAX,
        SpecValue::Bin(b) => b.len() <= u64::MAX,
        SpecValue::Doc(fs) => fs.len() <= u64::MAX && wf_fields(fs),
        SpecValue::Arr(vs) => vs.len() <= u64::MAX && wf_arr(vs),
        _ => true,
    }
}

/// Well-formedness of a field list.
pub open spec fn wf_fields(fs: Seq<(Seq<u8>, SpecValue)>) -> bool
    decreases fs,
{
    if fs.len() == 0 {
        true
    } else {
        fs[0].0.len() <= u64::MAX && wf_value(fs[0].1) && wf_fields(fs.drop_first())
    }
}

/// Well-formedness of a value list.
pub open spec fn wf_arr(vs: Seq<SpecValue>) -> bool
    decreases vs,
{
    if vs.len() == 0 {
        true
    } else {
        wf_value(vs[0]) && wf_arr(vs.drop_first())
    }
}

/// A 64-bit number as eight little-endian bytes.
pub open spec fn le64(v: u64) -> Seq<u8> {
    Seq::new(8, |i: int| ((v >> (8 * i)) & 0xff) as u8)
}

/// Eight little-endian bytes as a 64-bit number.
pub open spec fn rd64(s: Seq<u8>) -> u64 {
    ((s[0] as u64) | ((s[1] as u64) << 8) | ((s[2] as u64) << 16) | ((s[3] as u64) << 24) | ((
    s[4] as u64) << 32) | ((s[5] as u64) << 40) | ((s[6] as u64) << 48) | ((s[7] as u64) << 56))
}

/// Reading back the eight bytes of a number gives the number.
pub proof fn lemma_le64_rt(v: u64)
    ensures
        rd64(le64(v)) == v,
{
    let s = le64(v);
    let b0 = s[0];
    let b1 = s[1];
    let b2 = s[2];
    let b3 = s[3];
    let b4 = s[4];
    let b5 = s[5];
    let b6 = s[6];
    let b7 = s[7];
    assert(((b0 as u64) | ((b1 as u64) << 8) | ((b2 as u64) << 16) | ((b3 as u64) << 24) | ((
    b4 as u64) << 32) | ((b5 as u64) << 40) | ((b6 as u64) << 48) | ((b7 as u64) << 56)) == v)
        by (bit_vector)
        requires
            b0 == ((v >> 0) & 0xff) as u8 && b1 == ((v >> 8) & 0xff) as u8 && b2 == ((v >> 16)
                & 0xff) as u8 && b3 == ((v >> 24) & 0xff) as u8 && b4 == ((v >> 32) & 0xff) as u8
                && b5 == ((v >> 40) & 0xff) as u8 && b6 == ((v >> 48) & 0xff) as u8 && b7 == ((v
                >> 56) & 0xff) as u8,
    ;
}

/// The tag byte of a value's encoding.
pub open spec fn tag_of(v: SpecValue) -> u8 {
    match v {
        SpecValue::Id(_) => 1,
        SpecValue::Str(_) => 2,
        SpecValue::Bin(_) => 3,
        SpecValue::Bool(_) => 4,
        SpecValue::I32(_) => 5,
        SpecValue::I64(_) => 6,
        SpecValue::Double(_) => 7,
        SpecValue::Dec(_) => 8,
        SpecValue::Ts(_) => 9,
        SpecValue::Dt(_) => 10,
        SpecValue::Null => 11,
        SpecValue::Doc(_) => 12,
        SpecValue::Arr(_) => 13,
    }
}

/// The encoding of a value: its tag, then its payload.
pub open spec fn enc_value(v: SpecValue) -> Seq<u8>
    decreases v, 0int,
{
    seq![tag_of(v)] + match v {
        SpecValue::Id(b) => b,
        SpecValue::Str(b) => le64(b.len() as u64) + b,
        SpecValue::Bin(b) => le64(b.len() as u64) + b,
        SpecValue::Bool(b) => seq![
            if b {
                1u8
            } else {
                0u8
            },
        ],
        SpecValue::I32(x) => le64(x as u64),
        SpecValue::I64(x) => le64(x as u64),
        SpecValue::Double(x) => le64(x),
        SpecValue::Dec(b) => b,
        SpecValue::Ts(x) => le64(x),
        SpecValue::Dt(x) => le64(x as u64),
        SpecValue::Null => Seq::empty(),
        SpecValue::Doc(fs) => enc_doc(fs),
        SpecValue::Arr(vs) => le64(vs.len() as u64) + enc_arr(vs),
    }
}

/// The encoding of a document body: the field count, then each field as its
/// name length, name bytes, and value.
pub open spec fn enc_doc(fs: Seq<(Seq<u8>, SpecValue)>) -> Seq<u8>
    decreases fs, 1int,
{
    le64(fs.len() as u64) + enc_fields(fs)
}

/// The encoding of the fields themselves.
pub open spec fn enc_fields(fs: Seq<(Seq<u8>, SpecValue)>) -> Seq<u8>
    decreases fs, 0int,
{
    if fs.len() == 0 {
        Seq::empty()
    } else {
        le64(fs[0].0.len() as u64) + fs[0].0 + enc_value(fs[0].1) + enc_fields(fs.drop_first())
    }
}

/// The encoding of array elements.
pub open spec fn enc_arr(vs: Seq<SpecValue>) -> Seq<u8>
    decreases vs, 0int,
{
    if vs.len() == 0 {
        Seq::empty()
    } else {
        enc_value(vs[0]) + enc_arr(vs.drop_first())
    }
}

/// Append a 64-bit number to a buffer, little-endian.
fn push_le64(out: &mut Vec<u8>, v: u64)
    ensures
        final(out)@ == old(out)@ + le64(v),
{
    out.push((v & 0xff) as u8);
    out.push(((v >> 8) & 0xff) as u8);
    out.push(((v >> 16) & 0xff) as u8);
    out.push(((v >> 24) & 0xff) as u8);
    out.push(((v >> 32) & 0xff) as u8);
    out.push(((v >> 40) & 0xff) as u8);
    out.push(((v >> 48) & 0xff) as u8);
    out.push(((v >> 56) & 0xff) as u8);
    proof {
        assert(((v >> 0) & 0xff) as u8 == (v & 0xff) as u8) by (bit_vector);
        assert(out@ =~= old(out)@ + le64(v));
    }
}

/// Append a value's encoding to a buffer.
fn push_value(out: &mut Vec<u8>, v: &Value)
    ensures
        final(out)@ == old(out)@ + enc_value(view_value(*v)),
    decreases v,
{
    let ghost start = out@;
    match v {
        Value::Id(b) => {
            out.push(1);
            append_bytes(out, b);
        },
        Value::Str(b) => {
            out.push(2);
            push_le64(out, b.len() as u64);
            append_bytes(out, b);
        },
        Value::Bin(b) => {
            out.push(3);
            push_le64(out, b.len() as u64);
            append_bytes(out, b);
        },
        Value::Bool(b) => {
            out.push(4);
            out.push(if *b {
                1
            } else {
                0
            });
        },
        Value::I32(x) => {
            out.push(5);
            push_le64(out, *x as u64);
        },
        Value::I64(x) => {
            out.push(6);
            push_le64(out, *x as u64);
        },
        Value::Double(x) => {
            out.push(7);
            push_le64(out, *x);
        },
        Value::Dec(b) => {
            out.push(8);
            append_bytes(out, b);
        },
        Value::Ts(x) => {
            out.push(9);
            push_le64(out, *x);
        },
        Value::Dt(x) => {
            out.push(10);
            push_le64(out, *x as u64);
        },
        Value::Null => {
            out.push(11);
        },
        Value::Doc(d) => {
            out.push(12);
            push_le64(out, d.fields.len() as u64);
            proof {
                lemma_view_fields_len(d.fields@);
            }
            let n = d.fields.len();
            let mut i: usize = 0;
            #[verifier::loop_isolation(false)]
            while i < n
                invariant
                    0 <= i <= n,
                    n == d.fields@.len(),
                    *v == Value::Doc(*d),
                    out@ =~= start + seq![12u8] + le64(d.fields@.len() as u64) + enc_fields(
                        view_fields(d.fields@).take(i as int),
                    ),
                decreases n - i,
            {
                push_le64(out, d.fields[i].0.len() as u64);
                append_bytes(out, &d.fields[i].0);
                proof {
                    broadcast use vstd::std_specs::vec::group_vec_axioms;
                    assert(decreases_to!(d.fields => d.fields[i as int]));
                }
                push_value(out, &d.fields[i].1);
                proof {
                    lemma_view_fields_index(d.fields@, i as int);
                    lemma_enc_fields_take(view_fields(d.fields@), i as int);
                    assert(out@ =~= start + seq![12u8] + le64(d.fields@.len() as u64) + enc_fields(
                        view_fields(d.fields@).take(i + 1),
                    ));
                }
                i = i + 1;
            }
            proof {
                assert(view_fields(d.fields@).take(n as int) =~= view_fields(d.fields@));
            }
        },
        Value::Arr(vs) => {
            out.push(13);
            push_le64(out, vs.len() as u64);
            proof {
                lemma_view_arr_len(vs@);
            }
            let n = vs.len();
            let mut i: usize = 0;
            #[verifier::loop_isolation(false)]
            while i < n
                invariant
                    0 <= i <= n,
                    n == vs@.len(),
                    *v == Value::Arr(*vs),
                    out@ =~= start + seq![13u8] + le64(vs@.len() as u64) + enc_arr(
                        view_arr(vs@).take(i as int),
                    ),
                decreases n - i,
            {
                proof {
                    broadcast use vstd::std_specs::vec::group_vec_axioms;
                    assert(decreases_to!(vs => vs[i as int]));
                }
                push_value(out, &vs[i]);
                proof {
                    lemma_view_arr_index(vs@, i as int);
                    lemma_enc_arr_take(view_arr(vs@), i as int);
                    assert(out@ =~= start + seq![13u8] + le64(vs@.len() as u64) + enc_arr(
                        view_arr(vs@).take(i + 1),
                    ));
                }
                i = i + 1;
            }
            proof {
                assert(view_arr(vs@).take(n as int) =~= view_arr(vs@));
            }
        },
    }
    proof {
        assert(final(out)@ =~= old(out)@ + enc_value(view_value(*v)));
    }
}

/// Append raw bytes to a buffer.
fn append_bytes(out: &mut Vec<u8>, b: &Vec<u8>)
    ensures
        final(out)@ == old(out)@ + b@,
{
    let n = b.len();
    let mut i: usize = 0;
    while i < n
        invariant
            0 <= i <= n,
            n == b@.len(),
            out@ =~= old(out)@ + b@.take(i as int),
        decreases n - i,
    {
        out.push(b[i]);
        proof {
            assert(out@ =~= old(out)@ + b@.take(i + 1));
        }
        i = i + 1;
    }
    proof {
        assert(out@ =~= old(out)@ + b@);
    }
}

/// A view keeps the field count.
pub proof fn lemma_view_fields_len(fs: Seq<(Vec<u8>, Value)>)
    ensures
        view_fields(fs).len() == fs.len(),
    decreases fs,
{
    if fs.len() > 0 {
        lemma_view_fields_len(fs.drop_first());
    }
}

/// A view maps fields pointwise.
pub proof fn lemma_view_fields_index(fs: Seq<(Vec<u8>, Value)>, i: int)
    requires
        0 <= i < fs.len(),
    ensures
        view_fields(fs).len() == fs.len(),
        view_fields(fs)[i] == (fs[i].0@, view_value(fs[i].1)),
    decreases fs,
{
    lemma_view_fields_len(fs);
    if i > 0 {
        lemma_view_fields_index(fs.drop_first(), i - 1);
    }
}

/// A view keeps the element count.
pub proof fn lemma_view_arr_len(vs: Seq<Value>)
    ensures
        view_arr(vs).len() == vs.len(),
    decreases vs,
{
    if vs.len() > 0 {
        lemma_view_arr_len(vs.drop_first());
    }
}

/// A view maps elements pointwise.
pub proof fn lemma_view_arr_index(vs: Seq<Value>, i: int)
    requires
        0 <= i < vs.len(),
    ensures
        view_arr(vs).len() == vs.len(),
        view_arr(vs)[i] == view_value(vs[i]),
    decreases vs,
{
    lemma_view_arr_len(vs);
    if i > 0 {
        lemma_view_arr_index(vs.drop_first(), i - 1);
    }
}

/// Encoding one more field extends the byte string by that field.
pub proof fn lemma_enc_fields_take(fs: Seq<(Seq<u8>, SpecValue)>, i: int)
    requires
        0 <= i < fs.len(),
    ensures
        enc_fields(fs.take(i + 1)) =~= enc_fields(fs.take(i)) + le64(fs[i].0.len() as u64)
            + fs[i].0 + enc_value(fs[i].1),
    decreases i,
{
    if i == 0 {
        assert(fs.take(1) =~= seq![fs[0]]);
        assert(fs.take(1).drop_first() =~= Seq::<(Seq<u8>, SpecValue)>::empty());
        assert(fs.take(0) =~= Seq::<(Seq<u8>, SpecValue)>::empty());
    } else {
        lemma_enc_fields_take(fs.drop_first(), i - 1);
        assert(fs.take(i + 1).drop_first() =~= fs.drop_first().take(i));
        assert(fs.take(i).drop_first() =~= fs.drop_first().take(i - 1));
        assert(fs.drop_first()[i - 1] == fs[i]);
        assert(fs.take(i + 1)[0] == fs[0]);
        assert(fs.take(i)[0] == fs[0]);
    }
}

/// Encoding one more element extends the byte string by that element.
pub proof fn lemma_enc_arr_take(vs: Seq<SpecValue>, i: int)
    requires
        0 <= i < vs.len(),
    ensures
        enc_arr(vs.take(i + 1)) =~= enc_arr(vs.take(i)) + enc_value(vs[i]),
    decreases i,
{
    if i == 0 {
        assert(vs.take(1) =~= seq![vs[0]]);
        assert(vs.take(1).drop_first() =~= Seq::<SpecValue>::empty());
        assert(vs.take(0) =~= Seq::<SpecValue>::empty());
    } else {
        lemma_enc_arr_take(vs.drop_first(), i - 1);
        assert(vs.take(i + 1).drop_first() =~= vs.drop_first().take(i));
        assert(vs.take(i).drop_first() =~= vs.drop_first().take(i - 1));
        assert(vs.drop_first()[i - 1] == vs[i]);
        assert(vs.take(i + 1)[0] == vs[0]);
        assert(vs.take(i)[0] == vs[0]);
    }
}

impl Document {
    /// An empty document.
    pub fn new() -> (r: Document)
        ensures
            view_doc(r) =~= Seq::<(Seq<u8>, SpecValue)>::empty(),
    {
        Document { fields: Vec::new() }
    }

    /// Append a field; insertion order is kept.
    pub fn insert(&mut self, name: Vec<u8>, value: Value)
        ensures
            view_doc(*final(self)) =~= view_doc(*old(self)).push((name@, view_value(value))),
    {
        self.fields.push((name, value));
        proof {
            lemma_view_push(old(self).fields@, (name, value));
        }
    }

    /// Serialise the document to its canonical bytes.
    pub fn encode(&self) -> (r: Vec<u8>)
        ensures
            r@ == enc_doc(view_doc(*self)),
    {
        let mut out: Vec<u8> = Vec::new();
        push_le64(&mut out, self.fields.len() as u64);
        proof {
            lemma_view_fields_len(self.fields@);
        }
        let n = self.fields.len();
        let mut i: usize = 0;
        while i < n
            invariant
                0 <= i <= n,
                n == self.fields@.len(),
                out@ =~= le64(self.fields@.len() as u64) + enc_fields(
                    view_fields(self.fields@).take(i as int),
                ),
            decreases n - i,
        {
            push_le64(&mut out, self.fields[i].0.len() as u64);
            append_bytes(&mut out, &self.fields[i].0);
            push_value(&mut out, &self.fields[i].1);
            proof {
                lemma_view_fields_index(self.fields@, i as int);
                lemma_enc_fields_take(view_fields(self.fields@), i as int);
                assert(out@ =~= le64(self.fields@.len() as u64) + enc_fields(
                    view_fields(self.fields@).take(i + 1),
                ));
            }
            i = i + 1;
        }
        proof {
            assert(view_fields(self.fields@).take(n as int) =~= view_fields(self.fields@));
        }
        out
    }
}

/// Pushing a field extends the view by its view.
pub proof fn lemma_view_push(fs: Seq<(Vec<u8>, Value)>, f: (Vec<u8>, Value))
    ensures
        view_fields(fs.push(f)) =~= view_fields(fs).push((f.0@, view_value(f.1))),
    decreases fs,
{
    lemma_view_fields_len(fs);
    lemma_view_fields_len(fs.push(f));
    assert forall|i: int| 0 <= i < fs.len() + 1 implies view_fields(fs.push(f))[i] == view_fields(
        fs,
    ).push((f.0@, view_value(f.1)))[i] by {
        lemma_view_fields_index(fs.push(f), i);
        if i < fs.len() {
            lemma_view_fields_index(fs, i);
            assert(fs.push(f)[i] == fs[i]);
        } else {
            assert(fs.push(f)[i] == f);
        }
    }
}

/// Decode a value at `i`: the position after it and the value. The fuel
/// bounds nesting; the executable decoder supplies one that cannot run out
/// before the input does.
pub open spec fn sp_dec_value(s: Seq<u8>, i: int, fuel: nat) -> Option<(int, SpecValue)>
    decreases fuel,
{
    if fuel == 0 || !(0 <= i < s.len()) {
        None
    } else {
        let t = s[i];
        let p = i + 1;
        if t == 1 {
            if p + 12 <= s.len() {
                Some((p + 12, SpecValue::Id(s.subrange(p, p + 12))))
            } else {
                None
            }
        } else if t == 2 || t == 3 {
            if p + 8 <= s.len() {
                let l = rd64(s.subrange(p, p + 8)) as int;
                if p + 8 + l <= s.len() {
                    let b = s.subrange(p + 8, p + 8 + l);
                    Some(
                        (
                            p + 8 + l,
                            if t == 2 {
                                SpecValue::Str(b)
                            } else {
                                SpecValue::Bin(b)
                            },
                        ),
                    )
                } else {
                    None
                }
            } else {
                None
            }
        } else if t == 4 {
            if p < s.len() && (s[p] == 0 || s[p] == 1) {
                Some((p + 1, SpecValue::Bool(s[p] == 1)))
            } else {
                None
            }
        } else if t == 5 {
            if p + 8 <= s.len() {
                Some((p + 8, SpecValue::I32(rd64(s.subrange(p, p + 8)) as i32)))
            } else {
                None
            }
        } else if t == 6 {
            if p + 8 <= s.len() {
                Some((p + 8, SpecValue::I64(rd64(s.subrange(p, p + 8)) as i64)))
            } else {
                None
            }
        } else if t == 7 {
            if p + 8 <= s.len() {
                Some((p + 8, SpecValue::Double(rd64(s.subrange(p, p + 8)))))
            } else {
                None
            }
        } else if t == 8 {
            if p + 16 <= s.len() {
                Some((p + 16, SpecValue::Dec(s.subrange(p, p + 16))))
            } else {
                None
            }
        } else if t == 9 {
            if p + 8 <= s.len() {
                Some((p + 8, SpecValue::Ts(rd64(s.subrange(p, p + 8)))))
            } else {
                None
            }
        } else if t == 10 {
            if p + 8 <= s.len() {
                Some((p + 8, SpecValue::Dt(rd64(s.subrange(p, p + 8)) as i64)))
            } else {
                None
            }
        } else if t == 11 {
            Some((p, SpecValue::Null))
        } else if t == 12 {
            match sp_dec_doc(s, p, (fuel - 1) as nat) {
                Some((j, fs)) => Some((j, SpecValue::Doc(fs))),
                None => None,
            }
        } else if t == 13 {
            if p + 8 <= s.len() {
                let cnt = rd64(s.subrange(p, p + 8)) as nat;
                match sp_dec_arr(s, p + 8, cnt, (fuel - 1) as nat) {
                    Some((j, vs)) => Some((j, SpecValue::Arr(vs))),
                    None => None,
                }
            } else {
                None
            }
        } else {
            None
        }
    }
}

/// Decode a document body at `i`.
pub open spec fn sp_dec_doc(s: Seq<u8>, i: int, fuel: nat) -> Option<
    (int, Seq<(Seq<u8>, SpecValue)>),
>
    decreases fuel,
{
    if fuel == 0 || !(0 <= i && i + 8 <= s.len()) {
        None
    } else {
        let cnt = rd64(s.subrange(i, i + 8)) as nat;
        sp_dec_fields(s, i + 8, cnt, (fuel - 1) as nat)
    }
}

/// Decode `cnt` fields at `i`.
pub open spec fn sp_dec_fields(s: Seq<u8>, i: int, cnt: nat, fuel: nat) -> Option<
    (int, Seq<(Seq<u8>, SpecValue)>),
>
    decreases fuel,
{
    if cnt == 0 {
        Some((i, Seq::empty()))
    } else if fuel == 0 || !(0 <= i && i + 8 <= s.len()) {
        None
    } else {
        let nl = rd64(s.subrange(i, i + 8)) as int;
        if i + 8 + nl <= s.len() {
            let name = s.subrange(i + 8, i + 8 + nl);
            match sp_dec_value(s, i + 8 + nl, (fuel - 1) as nat) {
                Some((j, v)) => match sp_dec_fields(s, j, (cnt - 1) as nat, (fuel - 1) as nat) {
                    Some((k, fs)) => Some((k, seq![(name, v)] + fs)),
                    None => None,
                },
                None => None,
            }
        } else {
            None
        }
    }
}

/// Decode `cnt` array elements at `i`.
pub open spec fn sp_dec_arr(s: Seq<u8>, i: int, cnt: nat, fuel: nat) -> Option<
    (int, Seq<SpecValue>),
>
    decreases fuel,
{
    if cnt == 0 {
        Some((i, Seq::empty()))
    } else if fuel == 0 {
        None
    } else {
        match sp_dec_value(s, i, (fuel - 1) as nat) {
            Some((j, v)) => match sp_dec_arr(s, j, (cnt - 1) as nat, (fuel - 1) as nat) {
                Some((k, vs)) => Some((k, seq![v] + vs)),
                None => None,
            },
            None => None,
        }
    }
}

/// What decoding a whole buffer yields: a document body consuming every byte.
pub open spec fn sp_decode(s: Seq<u8>) -> Option<Seq<(Seq<u8>, SpecValue)>> {
    match sp_dec_doc(s, 0, (s.len() + 2) as nat) {
        Some((j, fs)) => if j == s.len() {
            Some(fs)
        } else {
            None
        },
        None => None,
    }
}

/// Decoded positions advance and stay within the input.
pub proof fn lemma_dec_value_bound(s: Seq<u8>, i: int, fuel: nat)
    ensures
        match sp_dec_value(s, i, fuel) {
            Some((j, _)) => i < j <= s.len(),
            None => true,
        },
    decreases fuel,
{
    if fuel > 0 && 0 <= i < s.len() {
        let t = s[i];
        let p = i + 1;
        if t == 12 {
            lemma_dec_doc_bound(s, p, (fuel - 1) as nat);
        }
        if t == 13 && p + 8 <= s.len() {
            let cnt = rd64(s.subrange(p, p + 8)) as nat;
            lemma_dec_arr_bound(s, p + 8, cnt, (fuel - 1) as nat);
        }
    }
}

/// Decoded document bodies advance and stay within the input.
pub proof fn lemma_dec_doc_bound(s: Seq<u8>, i: int, fuel: nat)
    ensures
        match sp_dec_doc(s, i, fuel) {
            Some((j, _)) => i <= j <= s.len(),
            None => true,
        },
    decreases fuel,
{
    if fuel > 0 && 0 <= i && i + 8 <= s.len() {
        let cnt = rd64(s.subrange(i, i + 8)) as nat;
        lemma_dec_fields_bound(s, i + 8, cnt, (fuel - 1) as nat);
    }
}

/// Decoded field lists advance and stay within the input.
pub proof fn lemma_dec_fields_bound(s: Seq<u8>, i: int, cnt: nat, fuel: nat)
    ensures
        match sp_dec_fields(s, i, cnt, fuel) {
            Some((j, _)) => i <= j && (cnt > 0 ==> j <= s.len()),
            None => true,
        },
    decreases fuel,
{
    if cnt > 0 && fuel > 0 && 0 <= i && i + 8 <= s.len() {
        let nl = rd64(s.subrange(i, i + 8)) as int;
        if i + 8 + nl <= s.len() {
            lemma_dec_value_bound(s, i + 8 + nl, (fuel - 1) as nat);
            match sp_dec_value(s, i + 8 + nl, (fuel - 1) as nat) {
                Some((j, _)) => {
                    lemma_dec_fields_bound(s, j, (cnt - 1) as nat, (fuel - 1) as nat);
                },
                None => {},
            }
        }
    }
}

/// Decoded element lists advance and stay within the input.
pub proof fn lemma_dec_arr_bound(s: Seq<u8>, i: int, cnt: nat, fuel: nat)
    ensures
        match sp_dec_arr(s, i, cnt, fuel) {
            Some((j, _)) => i <= j && (cnt > 0 ==> j <= s.len()),
            None => true,
        },
    decreases fuel,
{
    if cnt > 0 && fuel > 0 {
        lemma_dec_value_bound(s, i, (fuel - 1) as nat);
        match sp_dec_value(s, i, (fuel - 1) as nat) {
            Some((j, _)) => {
                lemma_dec_arr_bound(s, j, (cnt - 1) as nat, (fuel - 1) as nat);
            },
            None => {},
        }
    }
}

/// Read a little-endian 64-bit number, executably.
fn read64(s: &Vec<u8>, i: usize) -> (r: u64)
    requires
        i + 8 <= s@.len(),
        s@.len() < usize::MAX - 16,
    ensures
        r == rd64(s@.subrange(i as int, i + 8)),
{
    let r = (s[i] as u64) | ((s[i + 1] as u64) << 8) | ((s[i + 2] as u64) << 16) | ((s[i
        + 3] as u64) << 24) | ((s[i + 4] as u64) << 32) | ((s[i + 5] as u64) << 40) | ((s[i
        + 6] as u64) << 48) | ((s[i + 7] as u64) << 56);
    proof {
        let sub = s@.subrange(i as int, i + 8);
        assert(sub[0] == s@[i as int] && sub[1] == s@[i + 1] && sub[2] == s@[i + 2] && sub[3]
            == s@[i + 3] && sub[4] == s@[i + 4] && sub[5] == s@[i + 5] && sub[6] == s@[i + 6]
            && sub[7] == s@[i + 7]);
    }
    r
}

/// Copy a byte range, executably.
fn copy_range(s: &Vec<u8>, a: usize, b: usize) -> (r: Vec<u8>)
    requires
        a <= b <= s@.len(),
    ensures
        r@ == s@.subrange(a as int, b as int),
{
    let mut out: Vec<u8> = Vec::new();
    let mut i = a;
    while i < b
        invariant
            a <= i <= b <= s@.len(),
            out@ =~= s@.subrange(a as int, i as int),
        decreases b - i,
    {
        out.push(s[i]);
        proof {
            assert(out@ =~= s@.subrange(a as int, i + 1));
        }
        i = i + 1;
    }
    proof {
        assert(out@ =~= s@.subrange(a as int, b as int));
    }
    out
}

/// Decode a value, executably.
fn dec_value(s: &Vec<u8>, i: usize, fuel: usize) -> (r: Option<(usize, Value)>)
    requires
        i <= s@.len(),
        s@.len() < usize::MAX - 16,
    ensures
        match sp_dec_value(s@, i as int, fuel as nat) {
            Some((j, sv)) => r matches Some((ju, v)) && ju == j && view_value(v) == sv && ju
                <= s@.len(),
            None => r is None,
        },
    decreases fuel,
{
    proof {
        lemma_dec_value_bound(s@, i as int, fuel as nat);
    }
    if fuel == 0 || i >= s.len() {
        return None;
    }
    let t = s[i];
    let p = i + 1;
    let n = s.len();
    if t == 1 {
        if p + 12 <= n {
            return Some((p + 12, Value::Id(copy_range(s, p, p + 12))));
        }
        return None;
    }
    if t == 2 || t == 3 {
        if p + 8 <= n {
            let l = read64(s, p);
            let rem = (n - (p + 8)) as u64;
            if l <= rem {
                let lu = l as usize;
                let b = copy_range(s, p + 8, p + 8 + lu);
                if t == 2 {
                    return Some((p + 8 + lu, Value::Str(b)));
                }
                return Some((p + 8 + lu, Value::Bin(b)));
            }
            return None;
        }
        return None;
    }
    if t == 4 {
        if p < n && (s[p] == 0 || s[p] == 1) {
            return Some((p + 1, Value::Bool(s[p] == 1)));
        }
        return None;
    }
    if t == 5 {
        if p + 8 <= n {
            return Some((p + 8, Value::I32(read64(s, p) as i32)));
        }
        return None;
    }
    if t == 6 {
        if p + 8 <= n {
            return Some((p + 8, Value::I64(read64(s, p) as i64)));
        }
        return None;
    }
    if t == 7 {
        if p + 8 <= n {
            return Some((p + 8, Value::Double(read64(s, p))));
        }
        return None;
    }
    if t == 8 {
        if p + 16 <= n {
            return Some((p + 16, Value::Dec(copy_range(s, p, p + 16))));
        }
        return None;
    }
    if t == 9 {
        if p + 8 <= n {
            return Some((p + 8, Value::Ts(read64(s, p))));
        }
        return None;
    }
    if t == 10 {
        if p + 8 <= n {
            return Some((p + 8, Value::Dt(read64(s, p) as i64)));
        }
        return None;
    }
    if t == 11 {
        return Some((p, Value::Null));
    }
    if t == 12 {
        match dec_doc(s, p, fuel - 1) {
            Some((j, fs)) => {
                return Some((j, Value::Doc(Document { fields: fs })));
            },
            None => {
                return None;
            },
        }
    }
    if t == 13 {
        if p + 8 <= n {
            let cnt = read64(s, p);
            match dec_arr(s, p + 8, cnt, fuel - 1) {
                Some((j, vs)) => {
                    return Some((j, Value::Arr(vs)));
                },
                None => {
                    return None;
                },
            }
        }
        return None;
    }
    None
}

/// Decode a document body, executably.
fn dec_doc(s: &Vec<u8>, i: usize, fuel: usize) -> (r: Option<(usize, Vec<(Vec<u8>, Value)>)>)
    requires
        i <= s@.len(),
        s@.len() < usize::MAX - 16,
    ensures
        match sp_dec_doc(s@, i as int, fuel as nat) {
            Some((j, sfs)) => r matches Some((ju, fs)) && ju == j && view_fields(fs@) == sfs && ju
                <= s@.len(),
            None => r is None,
        },
    decreases fuel,
{
    proof {
        lemma_dec_doc_bound(s@, i as int, fuel as nat);
    }
    let n = s.len();
    if fuel == 0 || i + 8 > n {
        return None;
    }
    let cnt = read64(s, i);
    dec_fields(s, i + 8, cnt, fuel - 1)
}

/// Decode a run of fields, executably.
fn dec_fields(s: &Vec<u8>, i: usize, cnt: u64, fuel: usize) -> (r: Option<
    (usize, Vec<(Vec<u8>, Value)>),
>)
    requires
        i <= s@.len(),
        s@.len() < usize::MAX - 16,
    ensures
        match sp_dec_fields(s@, i as int, cnt as nat, fuel as nat) {
            Some((j, sfs)) => r matches Some((ju, fs)) && ju == j && view_fields(fs@) == sfs && (
            cnt > 0 ==> ju <= s@.len()) && ju <= s@.len(),
            None => r is None,
        },
    decreases fuel,
{
    proof {
        lemma_dec_fields_bound(s@, i as int, cnt as nat, fuel as nat);
    }
    if cnt == 0 {
        let fs: Vec<(Vec<u8>, Value)> = Vec::new();
        proof {
            assert(view_fields(fs@) =~= Seq::<(Seq<u8>, SpecValue)>::empty());
        }
        return Some((i, fs));
    }
    let n = s.len();
    if fuel == 0 || i + 8 > n {
        return None;
    }
    let nl = read64(s, i);
    let rem = (n - (i + 8)) as u64;
    if nl > rem {
        return None;
    }
    let nlu = nl as usize;
    let name = copy_range(s, i + 8, i + 8 + nlu);
    match dec_value(s, i + 8 + nlu, fuel - 1) {
        Some((j, v)) => {
            match dec_fields(s, j, cnt - 1, fuel - 1) {
                Some((k, fs)) => {
                    let mut out: Vec<(Vec<u8>, Value)> = Vec::new();
                    let ghost namev = name@;
                    let ghost vv = view_value(v);
                    let ghost gfs = fs@;
                    let ghost fsv = view_fields(fs@);
                    out.push((name, v));
                    let mut rest = fs;
                    out.append(&mut rest);
                    proof {
                        lemma_view_fields_len(gfs);
                        assert(out@.drop_first() =~= gfs);
                        lemma_view_prepend(out@, namev, vv, fsv);
                    }
                    Some((k, out))
                },
                None => None,
            }
        },
        None => None,
    }
}

/// Decode a run of array elements, executably.
fn dec_arr(s: &Vec<u8>, i: usize, cnt: u64, fuel: usize) -> (r: Option<(usize, Vec<Value>)>)
    requires
        i <= s@.len(),
        s@.len() < usize::MAX - 16,
    ensures
        match sp_dec_arr(s@, i as int, cnt as nat, fuel as nat) {
            Some((j, svs)) => r matches Some((ju, vs)) && ju == j && view_arr(vs@) == svs && ju
                <= s@.len(),
            None => r is None,
        },
    decreases fuel,
{
    proof {
        lemma_dec_arr_bound(s@, i as int, cnt as nat, fuel as nat);
        lemma_dec_value_bound(s@, i as int, (fuel - 1) as nat);
    }
    if cnt == 0 {
        let vs: Vec<Value> = Vec::new();
        proof {
            assert(view_arr(vs@) =~= Seq::<SpecValue>::empty());
        }
        return Some((i, vs));
    }
    if fuel == 0 {
        return None;
    }
    match dec_value(s, i, fuel - 1) {
        Some((j, v)) => {
            match dec_arr(s, j, cnt - 1, fuel - 1) {
                Some((k, vs)) => {
                    let mut out: Vec<Value> = Vec::new();
                    let ghost vv = view_value(v);
                    let ghost gvs = vs@;
                    let ghost vsv = view_arr(vs@);
                    out.push(v);
                    let mut rest = vs;
                    out.append(&mut rest);
                    proof {
                        lemma_view_arr_len(gvs);
                        assert(out@.drop_first() =~= gvs);
                        lemma_view_arr_prepend(out@, vv, vsv);
                    }
                    Some((k, out))
                },
                None => None,
            }
        },
        None => None,
    }
}

/// The view of a one-element-then-rest field vector.
proof fn lemma_view_prepend(
    fs: Seq<(Vec<u8>, Value)>,
    namev: Seq<u8>,
    vv: SpecValue,
    fsv: Seq<(Seq<u8>, SpecValue)>,
)
    requires
        fs.len() == fsv.len() + 1,
        fs[0].0@ == namev,
        view_value(fs[0].1) == vv,
        view_fields(fs.drop_first()) == fsv,
    ensures
        view_fields(fs) == seq![(namev, vv)] + fsv,
{
    assert(view_fields(fs) =~= seq![(namev, vv)] + fsv);
}

/// The view of a one-element-then-rest value vector.
proof fn lemma_view_arr_prepend(vs: Seq<Value>, vv: SpecValue, vsv: Seq<SpecValue>)
    requires
        vs.len() == vsv.len() + 1,
        view_value(vs[0]) == vv,
        view_arr(vs.drop_first()) == vsv,
    ensures
        view_arr(vs) == seq![vv] + vsv,
{
    assert(view_arr(vs) =~= seq![vv] + vsv);
}

impl Document {
    /// Decode a document from its canonical bytes; the whole buffer must be
    /// one document.
    pub fn decode(bytes: &Vec<u8>) -> (r: Option<Document>)
        requires
            bytes@.len() < usize::MAX - 16,
        ensures
            match sp_decode(bytes@) {
                Some(sfs) => r matches Some(d) && view_doc(d) == sfs,
                None => r is None,
            },
    {
        let n = bytes.len();
        match dec_doc(bytes, 0, n + 2) {
            Some((j, fs)) => {
                if j == n {
                    Some(Document { fields: fs })
                } else {
                    None
                }
            },
            None => None,
        }
    }

    /// The twelve object-id bytes of the reserved `_id` field, if the
    /// document carries one.
    pub fn id_bytes(&self) -> (r: Option<Vec<u8>>)
        ensures
            match r {
                Some(b) => exists|i: int|
                    0 <= i < view_doc(*self).len() && (#[trigger] view_doc(*self)[i]).0
                        == "_id"@.map_values(|c: char| c as u8) && view_doc(*self)[i].1
                        == SpecValue::Id(b@),
                None => forall|i: int|
                    0 <= i < view_doc(*self).len() ==> !((#[trigger] view_doc(*self)[i]).0
                        == "_id"@.map_values(|c: char| c as u8) && view_doc(*self)[i].1 is Id),
            },
    {
        proof {
            reveal_strlit("_id");
            assert("_id"@.map_values(|c: char| c as u8) =~= seq![95u8, 105u8, 100u8]);
            lemma_view_fields_len(self.fields@);
        }
        let n = self.fields.len();
        let mut i: usize = 0;
        while i < n
            invariant
                0 <= i <= n,
                n == self.fields@.len(),
                "_id"@.map_values(|c: char| c as u8) =~= seq![95u8, 105u8, 100u8],
                view_doc(*self).len() == n,
                forall|j: int|
                    0 <= j < i ==> !((#[trigger] view_doc(*self)[j]).0 == "_id"@.map_values(
                        |c: char| c as u8,
                    ) && view_doc(*self)[j].1 is Id),
            decreases n - i,
        {
            let name = &self.fields[i].0;
            proof {
                lemma_view_fields_index(self.fields@, i as int);
            }
            if name.len() == 3 {
                if name[0] == 95 && name[1] == 105 && name[2] == 100 {
                    match &self.fields[i].1 {
                        Value::Id(b) => {
                            let out = crate::sorted::clone_bytes(b);
                            proof {
                                lemma_view_fields_index(self.fields@, i as int);
                                reveal_strlit("_id");
                                assert(name@ =~= "_id"@.map_values(|c: char| c as u8));
                                assert(view_doc(*self)[i as int].0 == "_id"@.map_values(
                                    |c: char| c as u8,
                                ));
                                assert(view_doc(*self)[i as int].1 == SpecValue::Id(out@));
                                assert(exists|q: int|
                                    0 <= q < view_doc(*self).len() && (#[trigger] view_doc(
                                        *self,
                                    )[q]).0 == "_id"@.map_values(|c: char| c as u8) && view_doc(
                                        *self,
                                    )[q].1 == SpecValue::Id(out@)) by {
                                    let qi = i as int;
                                    assert(0 <= qi && qi < view_doc(*self).len() && view_doc(
                                        *self,
                                    )[qi].0 == "_id"@.map_values(|c: char| c as u8) && view_doc(
                                        *self,
                                    )[qi].1 == SpecValue::Id(out@));
                                }
                            }
                            return Some(out);
                        },
                        _ => {
                            proof {
                                assert(!(view_doc(*self)[i as int].1 is Id));
                            }
                        },
                    }
                } else {
                    proof {
                        assert(view_doc(*self)[i as int].0 == name@);
                        assert(name@ != seq![95u8, 105u8, 100u8]) by {
                            if name@ =~= seq![95u8, 105u8, 100u8] {
                                assert(name@[0] == 95 && name@[1] == 105 && name@[2] == 100);
                            }
                            if name@ == seq![95u8, 105u8, 100u8] {
                                assert(name@ =~= seq![95u8, 105u8, 100u8]);
                            }
                        }
                    }
                }
            } else {
                proof {
                    assert(view_doc(*self)[i as int].0 == name@);
                    assert(name@.len() != 3);
                }
            }
            i = i + 1;
        }
        None
    }
}

/// The recursion allowance the decoder needs for a value.
pub open spec fn need_value(v: SpecValue) -> nat
    decreases v, 0int,
{
    match v {
        SpecValue::Doc(fs) => 2 + need_fields(fs),
        SpecValue::Arr(vs) => 2 + need_arr(vs),
        _ => 1,
    }
}

/// The allowance for a field list.
pub open spec fn need_fields(fs: Seq<(Seq<u8>, SpecValue)>) -> nat
    decreases fs, 1int,
{
    if fs.len() == 0 {
        1
    } else {
        1 + if need_value(fs[0].1) >= need_fields(fs.drop_first()) {
            need_value(fs[0].1)
        } else {
            need_fields(fs.drop_first())
        }
    }
}

/// The allowance for an element list.
pub open spec fn need_arr(vs: Seq<SpecValue>) -> nat
    decreases vs, 1int,
{
    if vs.len() == 0 {
        1
    } else {
        1 + if need_value(vs[0]) >= need_arr(vs.drop_first()) {
            need_value(vs[0])
        } else {
            need_arr(vs.drop_first())
        }
    }
}

/// The decoder's allowance never exceeds the encoding's length by more than a
/// small constant.
pub proof fn lemma_need_value(v: SpecValue)
    ensures
        need_value(v) <= enc_value(v).len() + 1,
        enc_value(v).len() >= 1,
    decreases v, 0int,
{
    match v {
        SpecValue::Doc(fs) => {
            lemma_need_fields(fs);
        },
        SpecValue::Arr(vs) => {
            lemma_need_arr(vs);
        },
        _ => {},
    }
}

/// The allowance bound for field lists.
pub proof fn lemma_need_fields(fs: Seq<(Seq<u8>, SpecValue)>)
    ensures
        need_fields(fs) <= enc_fields(fs).len() + 2,
    decreases fs, 1int,
{
    if fs.len() > 0 {
        lemma_need_value(fs[0].1);
        lemma_need_fields(fs.drop_first());
    }
}

/// The allowance bound for element lists.
pub proof fn lemma_need_arr(vs: Seq<SpecValue>)
    ensures
        need_arr(vs) <= enc_arr(vs).len() + 2,
    decreases vs, 1int,
{
    if vs.len() > 0 {
        lemma_need_value(vs[0]);
        lemma_need_arr(vs.drop_first());
    }
}

/// Casting an integer out and back through its unsigned bit pattern keeps it.
proof fn lemma_cast_rt_i64(x: i64)
    ensures
        (x as u64) as i64 == x,
{
    assert((x as u64) as i64 == x) by (bit_vector);
}

/// As `lemma_cast_rt_i64`, for 32-bit integers widened to 64.
proof fn lemma_cast_rt_i32(x: i32)
    ensures
        (x as u64) as i32 == x,
{
    assert((x as u64) as i32 == x) by (bit_vector);
}

/// A window of an embedded byte string matches the same window of it.
proof fn lemma_window(s: Seq<u8>, i: int, e: Seq<u8>, off: int, len: int)
    requires
        0 <= i,
        i + e.len() <= s.len(),
        s.subrange(i, i + e.len()) == e,
        0 <= off,
        0 <= len,
        off + len <= e.len(),
    ensures
        s.subrange(i + off, i + off + len) =~= e.subrange(off, off + len),
{
    assert forall|q: int| 0 <= q < len implies #[trigger] s.subrange(i + off, i + off + len)[q]
        == e.subrange(off, off + len)[q] by {
        assert(s.subrange(i, i + e.len())[off + q] == e[off + q]);
    }
}

/// Decoding an encoded value embedded in a longer byte string consumes
/// exactly the encoding and yields the value back.
pub proof fn lemma_rt_value(s: Seq<u8>, i: int, v: SpecValue, fuel: nat)
    requires
        wf_value(v),
        0 <= i,
        i + enc_value(v).len() <= s.len(),
        s.subrange(i, i + enc_value(v).len()) == enc_value(v),
        fuel >= need_value(v),
    ensures
        sp_dec_value(s, i, fuel) == Some((i + enc_value(v).len(), v)),
    decreases v, 0int,
{
    let e = enc_value(v);
    let p = i + 1;
    assert(s[i] == e[0]);
    assert(e[0] == tag_of(v));
    match v {
        SpecValue::Id(b) => {
            lemma_window(s, i, e, 1, 12);
            assert(e.subrange(1, 13) =~= b);
        },
        SpecValue::Str(b) => {
            lemma_window(s, i, e, 1, 8);
            assert(e.subrange(1, 9) =~= le64(b.len() as u64));
            lemma_le64_rt(b.len() as u64);
            lemma_window(s, i, e, 9, b.len() as int);
            assert(e.subrange(9, 9 + b.len() as int) =~= b);
        },
        SpecValue::Bin(b) => {
            lemma_window(s, i, e, 1, 8);
            assert(e.subrange(1, 9) =~= le64(b.len() as u64));
            lemma_le64_rt(b.len() as u64);
            lemma_window(s, i, e, 9, b.len() as int);
            assert(e.subrange(9, 9 + b.len() as int) =~= b);
        },
        SpecValue::Bool(x) => {
            assert(s[p] == e[1]);
        },
        SpecValue::I32(x) => {
            lemma_window(s, i, e, 1, 8);
            assert(e.subrange(1, 9) =~= le64(x as u64));
            lemma_le64_rt(x as u64);
            lemma_cast_rt_i32(x);
        },
        SpecValue::I64(x) => {
            lemma_window(s, i, e, 1, 8);
            assert(e.subrange(1, 9) =~= le64(x as u64));
            lemma_le64_rt(x as u64);
            lemma_cast_rt_i64(x);
        },
        SpecValue::Double(x) => {
            lemma_window(s, i, e, 1, 8);
            assert(e.subrange(1, 9) =~= le64(x));
            lemma_le64_rt(x);
        },
        SpecValue::Dec(b) => {
            lemma_window(s, i, e, 1, 16);
            assert(e.subrange(1, 17) =~= b);
        },
        SpecValue::Ts(x) => {
            lemma_window(s, i, e, 1, 8);
            assert(e.subrange(1, 9) =~= le64(x));
            lemma_le64_rt(x);
        },
        SpecValue::Dt(x) => {
            lemma_window(s, i, e, 1, 8);
            assert(e.subrange(1, 9) =~= le64(x as u64));
            lemma_le64_rt(x as u64);
            lemma_cast_rt_i64(x);
        },
        SpecValue::Null => {},
        SpecValue::Doc(fs) => {
            lemma_window(s, i, e, 1, 8);
            assert(e.subrange(1, 9) =~= le64(fs.len() as u64));
            lemma_le64_rt(fs.len() as u64);
            lemma_window(s, i, e, 9, enc_fields(fs).len() as int);
            assert(e.subrange(9, 9 + enc_fields(fs).len() as int) =~= enc_fields(fs));
            lemma_rt_fields(s, p + 8, fs, (fuel - 2) as nat);
            assert(sp_dec_doc(s, p, (fuel - 1) as nat) == Some(
                (p + 8 + enc_fields(fs).len(), fs),
            ));
        },
        SpecValue::Arr(vs) => {
            lemma_window(s, i, e, 1, 8);
            assert(e.subrange(1, 9) =~= le64(vs.len() as u64));
            lemma_le64_rt(vs.len() as u64);
            lemma_window(s, i, e, 9, enc_arr(vs).len() as int);
            assert(e.subrange(9, 9 + enc_arr(vs).len() as int) =~= enc_arr(vs));
            lemma_rt_arr(s, p + 8, vs, (fuel - 1) as nat);
        },
    }
}

/// Decoding an encoded field list consumes exactly the encoding and yields
/// the fields back.
pub proof fn lemma_rt_fields(s: Seq<u8>, i: int, fs: Seq<(Seq<u8>, SpecValue)>, fuel: nat)
    requires
        wf_fields(fs),
        0 <= i,
        i + enc_fields(fs).len() <= s.len(),
        s.subrange(i, i + enc_fields(fs).len()) == enc_fields(fs),
        fuel >= need_fields(fs),
    ensures
        sp_dec_fields(s, i, fs.len(), fuel) == Some((i + enc_fields(fs).len(), fs)),
    decreases fs, 1int,
{
    if fs.len() == 0 {
    } else {
        let name = fs[0].0;
        let v = fs[0].1;
        let rest = fs.drop_first();
        let e = enc_fields(fs);
        let nl = name.len() as int;
        let ev = enc_value(v);
        lemma_window(s, i, e, 0, 8);
        assert(e.subrange(0, 8) =~= le64(name.len() as u64));
        lemma_le64_rt(name.len() as u64);
        lemma_window(s, i, e, 8, nl);
        assert(e.subrange(8, 8 + nl) =~= name);
        lemma_window(s, i, e, 8 + nl, ev.len() as int);
        assert(e.subrange(8 + nl, 8 + nl + ev.len() as int) =~= ev);
        lemma_rt_value(s, i + 8 + nl, v, (fuel - 1) as nat);
        let j = i + 8 + nl + ev.len();
        lemma_window(s, i, e, 8 + nl + ev.len() as int, enc_fields(rest).len() as int);
        assert(e.subrange(
            8 + nl + ev.len() as int,
            8 + nl + ev.len() as int + enc_fields(rest).len() as int,
        ) =~= enc_fields(rest));
        lemma_rt_fields(s, j, rest, (fuel - 1) as nat);
        assert(sp_dec_fields(s, j, (fs.len() - 1) as nat, (fuel - 1) as nat) == Some(
            (j + enc_fields(rest).len(), rest),
        ));
        assert(seq![(name, v)] + rest =~= fs);
    }
}

/// Decoding an encoded element list consumes exactly the encoding and yields
/// the elements back.
pub proof fn lemma_rt_arr(s: Seq<u8>, i: int, vs: Seq<SpecValue>, fuel: nat)
    requires
        wf_arr(vs),
        0 <= i,
        i + enc_arr(vs).len() <= s.len(),
        s.subrange(i, i + enc_arr(vs).len()) == enc_arr(vs),
        fuel >= need_arr(vs),
    ensures
        sp_dec_arr(s, i, vs.len(), fuel) == Some((i + enc_arr(vs).len(), vs)),
    decreases vs, 1int,
{
    if vs.len() == 0 {
    } else {
        let v = vs[0];
        let rest = vs.drop_first();
        let e = enc_arr(vs);
        let ev = enc_value(v);
        lemma_window(s, i, e, 0, ev.len() as int);
        assert(e.subrange(0, ev.len() as int) =~= ev);
        lemma_rt_value(s, i, v, (fuel - 1) as nat);
        let j = i + ev.len();
        lemma_window(s, i, e, ev.len() as int, enc_arr(rest).len() as int);
        assert(e.subrange(
            ev.len() as int,
            ev.len() as int + enc_arr(rest).len() as int,
        ) =~= enc_arr(rest));
        lemma_rt_arr(s, j, rest, (fuel - 1) as nat);
        assert(seq![v] + rest =~= vs);
    }
}

/// The round trip: a well-formed document's canonical bytes decode back to
/// exactly the document.
pub proof fn lemma_document_round_trip(fs: Seq<(Seq<u8>, SpecValue)>)
    requires
        wf_fields(fs),
        fs.len() <= u64::MAX,
    ensures
        sp_decode(enc_doc(fs)) == Some(fs),
{
    let s = enc_doc(fs);
    assert(s.subrange(0, 8) =~= le64(fs.len() as u64));
    lemma_le64_rt(fs.len() as u64);
    assert(s.subrange(8, 8 + enc_fields(fs).len() as int) =~= enc_fields(fs));
    lemma_need_fields(fs);
    lemma_rt_fields(s, 8, fs, (s.len() + 1) as nat);
    assert(sp_dec_doc(s, 0, (s.len() + 2) as nat) == Some((s.len() as int, fs)));
}

} // verus!
