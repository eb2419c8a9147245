//! The byte codec for the security-state record.
//!
//! The record is one flat JSON object with five fixed keys, each value
//! either `null` or a string. A stored string is written as its UTF-8
//! bytes with quotes and backslashes escaped; every other byte passes
//! through unchanged. The decoder accepts exactly what the encoder writes
//! and falls back to the empty record on anything else.

use vstd::prelude::*;

use vstd::string::StrSliceExecFns;
use vstd::utf8::encode_utf8;
use vstd::utf8::encode_utf8_decode_utf8;
use vstd::utf8::encode_utf8_valid_utf8;
use vstd::utf8::valid_utf8;

use crate::codec::region_at;
use crate::security::opt_str_view;
use crate::security::SecView;
use crate::security::SecurityState;

verus! {

/// How one content byte is written inside a JSON string: a quote or a
/// backslash gains a backslash, every other byte stands as it is.
pub open spec fn esc_byte(b: u8) -> Seq<u8> {
    if b == 34 {
        seq![92u8, 34u8]
    } else if b == 92 {
        seq![92u8, 92u8]
    } else {
        seq![b]
    }
}

/// A whole content byte string, escaped.
pub open spec fn esc(s: Seq<u8>) -> Seq<u8>
    decreases s.len(),
{
    if s.len() == 0 {
        Seq::empty()
    } else {
        esc_byte(s[0]) + esc(s.drop_first())
    }
}

/// The JSON spelling of an optional string value: `null`, or the escaped
/// UTF-8 bytes between quotes.
pub open spec fn json_opt_str(v: Option<Seq<char>>) -> Seq<u8> {
    match v {
        None => seq![110u8, 117u8, 108u8, 108u8],
        Some(s) => seq![34u8] + esc(encode_utf8(s)) + seq![34u8],
    }
}

/// The bytes `{"identityJson":`.
pub open spec fn sec_lit1() -> Seq<u8> {
    seq![123u8, 34u8, 105u8, 100u8, 101u8, 110u8, 116u8, 105u8, 116u8, 121u8, 74u8, 115u8, 111u8,
        110u8, 34u8, 58u8]
}

/// The bytes `,"delegationJson":`.
pub open spec fn sec_lit2() -> Seq<u8> {
    seq![44u8, 34u8, 100u8, 101u8, 108u8, 101u8, 103u8, 97u8, 116u8, 105u8, 111u8, 110u8, 74u8,
        115u8, 111u8, 110u8, 34u8, 58u8]
}

/// The bytes `,"revocationQueueJson":`.
pub open spec fn sec_lit3() -> Seq<u8> {
    seq![44u8, 34u8, 114u8, 101u8, 118u8, 111u8, 99u8, 97u8, 116u8, 105u8, 111u8, 110u8, 81u8,
        117u8, 101u8, 117u8, 101u8, 74u8, 115u8, 111u8, 110u8, 34u8, 58u8]
}

/// The bytes `,"auditLogJson":`.
pub open spec fn sec_lit4() -> Seq<u8> {
    seq![44u8, 34u8, 97u8, 117u8, 100u8, 105u8, 116u8, 76u8, 111u8, 103u8, 74u8, 115u8, 111u8,
        110u8, 34u8, 58u8]
}

/// The bytes `,"failedFlushQueueJson":`.
pub open spec fn sec_lit5() -> Seq<u8> {
    seq![44u8, 34u8, 102u8, 97u8, 105u8, 108u8, 101u8, 100u8, 70u8, 108u8, 117u8, 115u8, 104u8,
        81u8, 117u8, 101u8, 117u8, 101u8, 74u8, 115u8, 111u8, 110u8, 34u8, 58u8]
}

/// The whole canonical security-state object.
pub open spec fn sec_json(v: SecView) -> Seq<u8> {
    sec_lit1() + json_opt_str(v.identity_json) + sec_lit2() + json_opt_str(v.delegation_json)
        + sec_lit3() + json_opt_str(v.revocation_queue_json) + sec_lit4() + json_opt_str(
        v.audit_log_json,
    ) + sec_lit5() + json_opt_str(v.failed_flush_queue_json) + seq![125u8]
}

/// Escaping distributes over concatenation.
proof fn lemma_esc_concat(a: Seq<u8>, b: Seq<u8>)
    ensures
        esc(a + b) == esc(a) + esc(b),
    decreases a.len(),
{
    if a.len() == 0 {
        assert(a + b =~= b);
        assert(esc(a) + esc(b) =~= esc(b));
    } else {
        assert((a + b).len() > 0);
        assert((a + b)[0] == a[0]);
        assert((a + b).drop_first() =~= a.drop_first() + b);
        lemma_esc_concat(a.drop_first(), b);
        assert(esc(a + b) == esc_byte(a[0]) + (esc(a.drop_first()) + esc(b)));
        assert(esc_byte(a[0]) + (esc(a.drop_first()) + esc(b)) =~= (esc_byte(a[0]) + esc(
            a.drop_first(),
        )) + esc(b));
    }
}

/// Escaping one more byte appends its spelling.
proof fn lemma_esc_snoc(s: Seq<u8>, x: u8)
    ensures
        esc(s.push(x)) == esc(s) + esc_byte(x),
{
    assert(s.push(x) =~= s + seq![x]);
    lemma_esc_concat(s, seq![x]);
    assert(seq![x].drop_first() =~= Seq::<u8>::empty());
    assert(esc(seq![x]) == esc_byte(x) + esc(Seq::<u8>::empty()));
    assert(esc_byte(x) + esc(Seq::<u8>::empty()) =~= esc_byte(x));
}

/// The first byte of an escaped byte's spelling is never a bare quote,
/// and is a backslash exactly for the two escaped bytes.
proof fn lemma_esc_byte_shape(b: u8)
    ensures
        1 <= esc_byte(b).len() <= 2,
        esc_byte(b)[0] != 34,
        (esc_byte(b)[0] == 92) <==> (b == 34 || b == 92),
        (b == 34 || b == 92) ==> esc_byte(b) == seq![92u8, b],
        !(b == 34 || b == 92) ==> esc_byte(b) == seq![b],
{
    if b == 34 || b == 92 {
        assert(esc_byte(b) =~= seq![92u8, b]);
    }
}

/// Append the bytes `null`.
fn push_null(out: &mut Vec<u8>)
    ensures
        final(out)@ == old(out)@ + json_opt_str(None),
{
    out.push(110);
    out.push(117);
    out.push(108);
    out.push(108);
    proof {
        assert(out@ =~= old(out)@ + json_opt_str(None));
    }
}

/// Append the escaped spelling of every byte of `bytes`.
fn push_escaped(out: &mut Vec<u8>, bytes: &Vec<u8>)
    ensures
        final(out)@ == old(out)@ + esc(bytes@),
{
    let n = bytes.len();
    let mut i: usize = 0;
    proof {
        assert(bytes@.take(0) =~= Seq::<u8>::empty());
        assert(out@ =~= old(out)@ + esc(bytes@.take(0)));
    }
    while i < n
        invariant
            0 <= i <= n,
            n == bytes@.len(),
            out@ == old(out)@ + esc(bytes@.take(i as int)),
        decreases n - i,
    {
        let b = bytes[i];
        proof {
            lemma_esc_snoc(bytes@.take(i as int), b);
            lemma_esc_byte_shape(b);
            assert(bytes@.take(i as int).push(b) =~= bytes@.take(i + 1));
        }
        if b == 34 {
            out.push(92);
            out.push(34);
        } else if b == 92 {
            out.push(92);
            out.push(92);
        } else {
            out.push(b);
        }
        proof {
            assert(out@ =~= old(out)@ + esc(bytes@.take(i + 1)));
        }
        i = i + 1;
    }
    proof {
        assert(bytes@.take(n as int) =~= bytes@);
    }
}

/// Append the JSON spelling of one optional string field.
fn push_opt_str(out: &mut Vec<u8>, v: &Option<String>)
    ensures
        final(out)@ == old(out)@ + json_opt_str(opt_str_view(*v)),
{
    match v {
        None => {
            push_null(out);
        },
        Some(s) => {
            out.push(34);
            let bytes = s.as_str().as_bytes_vec();
            proof {
                assert(bytes@ == encode_utf8(s@));
            }
            push_escaped(out, &bytes);
            out.push(34);
            proof {
                assert(out@ =~= old(out)@ + json_opt_str(opt_str_view(*v)));
            }
        },
    }
}

/// Append the bytes `{"identityJson":`.
fn push_sec_lit1(out: &mut Vec<u8>)
    ensures
        final(out)@ == old(out)@ + sec_lit1(),
{
    out.push(123);
    out.push(34);
    out.push(105);
    out.push(100);
    out.push(101);
    out.push(110);
    out.push(116);
    out.push(105);
    out.push(116);
    out.push(121);
    out.push(74);
    out.push(115);
    out.push(111);
    out.push(110);
    out.push(34);
    out.push(58);
    proof {
        assert(out@ =~= old(out)@ + sec_lit1());
    }
}

/// Append the bytes `,"delegationJson":`.
fn push_sec_lit2(out: &mut Vec<u8>)
    ensures
        final(out)@ == old(out)@ + sec_lit2(),
{
    out.push(44);
    out.push(34);
    out.push(100);
    out.push(101);
    out.push(108);
    out.push(101);
    out.push(103);
    out.push(97);
    out.push(116);
    out.push(105);
    out.push(111);
    out.push(110);
    out.push(74);
    out.push(115);
    out.push(111);
    out.push(110);
    out.push(34);
    out.push(58);
    proof {
        assert(out@ =~= old(out)@ + sec_lit2());
    }
}

/// Append the bytes `,"revocationQueueJson":`.
fn push_sec_lit3(out: &mut Vec<u8>)
    ensures
        final(out)@ == old(out)@ + sec_lit3(),
{
    out.push(44);
    out.push(34);
    out.push(114);
    out.push(101);
    out.push(118);
    out.push(111);
    out.push(99);
    out.push(97);
    out.push(116);
    out.push(105);
    out.push(111);
    out.push(110);
    out.push(81);
    out.push(117);
    out.push(101);
    out.push(117);
    out.push(101);
    out.push(74);
    out.push(115);
    out.push(111);
    out.push(110);
    out.push(34);
    out.push(58);
    proof {
        assert(out@ =~= old(out)@ + sec_lit3());
    }
}

/// Append the bytes `,"auditLogJson":`.
fn push_sec_lit4(out: &mut Vec<u8>)
    ensures
        final(out)@ == old(out)@ + sec_lit4(),
{
    out.push(44);
    out.push(34);
    out.push(97);
    out.push(117);
    out.push(100);
    out.push(105);
    out.push(116);
    out.push(76);
    out.push(111);
    out.push(103);
    out.push(74);
    out.push(115);
    out.push(111);
    out.push(110);
    out.push(34);
    out.push(58);
    proof {
        assert(out@ =~= old(out)@ + sec_lit4());
    }
}

/// Append the bytes `,"failedFlushQueueJson":`.
fn push_sec_lit5(out: &mut Vec<u8>)
    ensures
        final(out)@ == old(out)@ + sec_lit5(),
{
    out.push(44);
    out.push(34);
    out.push(102);
    out.push(97);
    out.push(105);
    out.push(108);
    out.push(101);
    out.push(100);
    out.push(70);
    out.push(108);
    out.push(117);
    out.push(115);
    out.push(104);
    out.push(81);
    out.push(117);
    out.push(101);
    out.push(117);
    out.push(101);
    out.push(74);
    out.push(115);
    out.push(111);
    out.push(110);
    out.push(34);
    out.push(58);
    proof {
        assert(out@ =~= old(out)@ + sec_lit5());
    }
}

/// Encode the security-state record as its canonical JSON object.
pub fn encode_security_state(state: &SecurityState) -> (r: Vec<u8>)
    ensures
        r@ == sec_json(state@),
{
    let mut out: Vec<u8> = Vec::new();
    push_sec_lit1(&mut out);
    push_opt_str(&mut out, &state.identity_json);
    push_sec_lit2(&mut out);
    push_opt_str(&mut out, &state.delegation_json);
    push_sec_lit3(&mut out);
    push_opt_str(&mut out, &state.revocation_queue_json);
    push_sec_lit4(&mut out);
    push_opt_str(&mut out, &state.audit_log_json);
    push_sec_lit5(&mut out);
    push_opt_str(&mut out, &state.failed_flush_queue_json);
    out.push(125);
    proof {
        assert(out@ =~= sec_json(state@));
    }
    out
}

/// Relies on `String::from_utf8`: it succeeds exactly on bytes that are
/// valid UTF-8, and the returned string's UTF-8 encoding is those bytes.
#[verifier::external_body]
fn string_from_utf8(bytes: Vec<u8>) -> (r: Option<String>)
    ensures
        match r {
            Some(s) => valid_utf8(bytes@) && encode_utf8(s@) == bytes@,
            None => !valid_utf8(bytes@),
        },
{
    String::from_utf8(bytes).ok()
}


/// Two escaped strings closed by a bare quote can only be read one way:
/// equal whole sequences mean equal contents and equal remainders.
proof fn lemma_esc_unambiguous(a: Seq<u8>, b: Seq<u8>, t1: Seq<u8>, t2: Seq<u8>)
    requires
        esc(a) + seq![34u8] + t1 == esc(b) + seq![34u8] + t2,
    ensures
        a == b,
        t1 == t2,
    decreases a.len(),
{
    let x = esc(a) + seq![34u8] + t1;
    let y = esc(b) + seq![34u8] + t2;
    if a.len() == 0 {
        assert(esc(a) =~= Seq::<u8>::empty());
        assert(x[0] == 34);
        if b.len() > 0 {
            lemma_esc_byte_shape(b[0]);
            assert(esc(b) == esc_byte(b[0]) + esc(b.drop_first()));
            assert(y[0] == esc_byte(b[0])[0]);
            assert(false);
        }
        assert(esc(b) =~= Seq::<u8>::empty());
        assert(a =~= b);
        assert(t1 =~= x.skip(1));
        assert(t2 =~= y.skip(1));
        assert(t1 =~= t2);
    } else if b.len() == 0 {
        assert(esc(b) =~= Seq::<u8>::empty());
        assert(y[0] == 34);
        lemma_esc_byte_shape(a[0]);
        assert(esc(a) == esc_byte(a[0]) + esc(a.drop_first()));
        assert(x[0] == esc_byte(a[0])[0]);
        assert(false);
    } else {
        lemma_esc_byte_shape(a[0]);
        lemma_esc_byte_shape(b[0]);
        assert(esc(a) == esc_byte(a[0]) + esc(a.drop_first()));
        assert(esc(b) == esc_byte(b[0]) + esc(b.drop_first()));
        assert(x[0] == esc_byte(a[0])[0]);
        assert(y[0] == esc_byte(b[0])[0]);
        if a[0] == 34 || a[0] == 92 {
            assert(x[0] == 92);
            assert(b[0] == 34 || b[0] == 92);
            assert(x[1] == esc_byte(a[0])[1]);
            assert(y[1] == esc_byte(b[0])[1]);
            assert(a[0] == b[0]);
            let ra = (esc(a.drop_first()) + seq![34u8]) + t1;
            let rb = (esc(b.drop_first()) + seq![34u8]) + t2;
            assert(x =~= esc_byte(a[0]) + ra);
            assert(y =~= esc_byte(b[0]) + rb);
            assert(ra =~= x.skip(2));
            assert(rb =~= y.skip(2));
            assert(ra == rb);
            lemma_esc_unambiguous(a.drop_first(), b.drop_first(), t1, t2);
            assert(a.len() == b.len());
            assert forall|i: int| 0 <= i < a.len() implies a[i] == b[i] by {
                if i > 0 {
                    assert(a.drop_first()[i - 1] == a[i]);
                    assert(b.drop_first()[i - 1] == b[i]);
                }
            }
            assert(a =~= b);
        } else {
            assert(x[0] == a[0]);
            if b[0] == 34 || b[0] == 92 {
                assert(y[0] == 92);
                assert(false);
            }
            assert(y[0] == b[0]);
            assert(a[0] == b[0]);
            let ra = (esc(a.drop_first()) + seq![34u8]) + t1;
            let rb = (esc(b.drop_first()) + seq![34u8]) + t2;
            assert(x =~= esc_byte(a[0]) + ra);
            assert(y =~= esc_byte(b[0]) + rb);
            assert(ra =~= x.skip(1));
            assert(rb =~= y.skip(1));
            assert(ra == rb);
            lemma_esc_unambiguous(a.drop_first(), b.drop_first(), t1, t2);
            assert(a.len() == b.len());
            assert forall|i: int| 0 <= i < a.len() implies a[i] == b[i] by {
                if i > 0 {
                    assert(a.drop_first()[i - 1] == a[i]);
                    assert(b.drop_first()[i - 1] == b[i]);
                }
            }
            assert(a =~= b);
        }
    }
}

/// A JSON field value can only be read one way: equal whole sequences
/// mean equal values and equal remainders.
proof fn lemma_json_opt_str_unambiguous(
    a: Option<Seq<char>>,
    b: Option<Seq<char>>,
    t1: Seq<u8>,
    t2: Seq<u8>,
)
    requires
        json_opt_str(a) + t1 == json_opt_str(b) + t2,
    ensures
        a == b,
        t1 == t2,
{
    let x = json_opt_str(a) + t1;
    let y = json_opt_str(b) + t2;
    match (a, b) {
        (Option::None, Option::None) => {
            assert(t1 =~= x.skip(4));
            assert(t2 =~= y.skip(4));
            assert(t1 =~= t2);
        },
        (Option::None, Option::Some(cb)) => {
            assert(x[0] == 110);
            assert(y[0] == 34);
            assert(false);
        },
        (Option::Some(ca), Option::None) => {
            assert(x[0] == 34);
            assert(y[0] == 110);
            assert(false);
        },
        (Option::Some(ca), Option::Some(cb)) => {
            let ea = encode_utf8(ca);
            let eb = encode_utf8(cb);
            let ra = (esc(ea) + seq![34u8]) + t1;
            let rb = (esc(eb) + seq![34u8]) + t2;
            assert(x =~= seq![34u8] + ra);
            assert(y =~= seq![34u8] + rb);
            assert(ra =~= x.skip(1));
            assert(rb =~= y.skip(1));
            assert(ra == rb);
            lemma_esc_unambiguous(ea, eb, t1, t2);
            encode_utf8_decode_utf8(ca);
            encode_utf8_decode_utf8(cb);
            assert(ca == cb);
        },
    }
}

/// Where each part of the canonical security object stands.
#[verifier::rlimit(50)]
proof fn lemma_sec_json_parts(v: SecView)
    ensures
        ({
            let f1 = json_opt_str(v.identity_json);
            let f2 = json_opt_str(v.delegation_json);
            let f3 = json_opt_str(v.revocation_queue_json);
            let f4 = json_opt_str(v.audit_log_json);
            let f5 = json_opt_str(v.failed_flush_queue_json);
            let p2 = 16 + f1.len() as int;
            let p3 = p2 + 18;
            let p4 = p3 + f2.len() as int;
            let p5 = p4 + 23;
            let p6 = p5 + f3.len() as int;
            let p7 = p6 + 16;
            let p8 = p7 + f4.len() as int;
            let p9 = p8 + 24;
            let p10 = p9 + f5.len() as int;
            &&& sec_json(v).len() == p10 + 1
            &&& sec_json(v).subrange(0, 16) == sec_lit1()
            &&& sec_json(v).subrange(16, p2) == f1
            &&& sec_json(v).subrange(p2, p3) == sec_lit2()
            &&& sec_json(v).subrange(p3, p4) == f2
            &&& sec_json(v).subrange(p4, p5) == sec_lit3()
            &&& sec_json(v).subrange(p5, p6) == f3
            &&& sec_json(v).subrange(p6, p7) == sec_lit4()
            &&& sec_json(v).subrange(p7, p8) == f4
            &&& sec_json(v).subrange(p8, p9) == sec_lit5()
            &&& sec_json(v).subrange(p9, p10) == f5
            &&& sec_json(v)[p10] == 125u8
        }),
{
    let f1 = json_opt_str(v.identity_json);
    let f2 = json_opt_str(v.delegation_json);
    let f3 = json_opt_str(v.revocation_queue_json);
    let f4 = json_opt_str(v.audit_log_json);
    let f5 = json_opt_str(v.failed_flush_queue_json);
    let p2 = 16 + f1.len() as int;
    let p3 = p2 + 18;
    let p4 = p3 + f2.len() as int;
    let p5 = p4 + 23;
    let p6 = p5 + f3.len() as int;
    let p7 = p6 + 16;
    let p8 = p7 + f4.len() as int;
    let p9 = p8 + 24;
    let p10 = p9 + f5.len() as int;
    assert(sec_json(v).subrange(0, 16) =~= sec_lit1());
    assert(sec_json(v).subrange(16, p2) =~= f1);
    assert(sec_json(v).subrange(p2, p3) =~= sec_lit2());
    assert(sec_json(v).subrange(p3, p4) =~= f2);
    assert(sec_json(v).subrange(p4, p5) =~= sec_lit3());
    assert(sec_json(v).subrange(p5, p6) =~= f3);
    assert(sec_json(v).subrange(p6, p7) =~= sec_lit4());
    assert(sec_json(v).subrange(p7, p8) =~= f4);
    assert(sec_json(v).subrange(p8, p9) =~= sec_lit5());
    assert(sec_json(v).subrange(p9, p10) =~= f5);
}


/// One byte string encodes at most one security record: two records with
/// the same encoding are the same record.
#[verifier::rlimit(100)]
proof fn lemma_sec_json_pins(data: Seq<u8>, r: SecView, v: SecView)
    requires
        data == sec_json(r),
        data == sec_json(v),
    ensures
        v == r,
{
    lemma_sec_json_parts(r);
    lemma_sec_json_parts(v);
    let f1r = json_opt_str(r.identity_json);
    let f1v = json_opt_str(v.identity_json);
    let p2r = 16 + f1r.len() as int;
    let p2v = 16 + f1v.len() as int;
    assert(data.skip(16) =~= f1r + data.skip(p2r)) by {
        assert(data.subrange(16, p2r) == f1r);
    }
    assert(data.skip(16) =~= f1v + data.skip(p2v)) by {
        assert(data.subrange(16, p2v) == f1v);
    }
    lemma_json_opt_str_unambiguous(
        v.identity_json,
        r.identity_json,
        data.skip(p2v),
        data.skip(p2r),
    );
    assert(p2r == p2v);
    let p3 = p2r + 18;
    let f2r = json_opt_str(r.delegation_json);
    let f2v = json_opt_str(v.delegation_json);
    let p4r = p3 + f2r.len() as int;
    let p4v = p3 + f2v.len() as int;
    assert(data.skip(p3) =~= f2r + data.skip(p4r)) by {
        assert(data.subrange(p3, p4r) == f2r);
    }
    assert(data.skip(p3) =~= f2v + data.skip(p4v)) by {
        assert(data.subrange(p3, p4v) == f2v);
    }
    lemma_json_opt_str_unambiguous(
        v.delegation_json,
        r.delegation_json,
        data.skip(p4v),
        data.skip(p4r),
    );
    assert(p4r == p4v);
    let p5 = p4r + 23;
    let f3r = json_opt_str(r.revocation_queue_json);
    let f3v = json_opt_str(v.revocation_queue_json);
    let p6r = p5 + f3r.len() as int;
    let p6v = p5 + f3v.len() as int;
    assert(data.skip(p5) =~= f3r + data.skip(p6r)) by {
        assert(data.subrange(p5, p6r) == f3r);
    }
    assert(data.skip(p5) =~= f3v + data.skip(p6v)) by {
        assert(data.subrange(p5, p6v) == f3v);
    }
    lemma_json_opt_str_unambiguous(
        v.revocation_queue_json,
        r.revocation_queue_json,
        data.skip(p6v),
        data.skip(p6r),
    );
    assert(p6r == p6v);
    let p7 = p6r + 16;
    let f4r = json_opt_str(r.audit_log_json);
    let f4v = json_opt_str(v.audit_log_json);
    let p8r = p7 + f4r.len() as int;
    let p8v = p7 + f4v.len() as int;
    assert(data.skip(p7) =~= f4r + data.skip(p8r)) by {
        assert(data.subrange(p7, p8r) == f4r);
    }
    assert(data.skip(p7) =~= f4v + data.skip(p8v)) by {
        assert(data.subrange(p7, p8v) == f4v);
    }
    lemma_json_opt_str_unambiguous(
        v.audit_log_json,
        r.audit_log_json,
        data.skip(p8v),
        data.skip(p8r),
    );
    assert(p8r == p8v);
    let p9 = p8r + 24;
    let f5r = json_opt_str(r.failed_flush_queue_json);
    let f5v = json_opt_str(v.failed_flush_queue_json);
    let p10r = p9 + f5r.len() as int;
    let p10v = p9 + f5v.len() as int;
    assert(data.skip(p9) =~= f5r + data.skip(p10r)) by {
        assert(data.subrange(p9, p10r) == f5r);
    }
    assert(data.skip(p9) =~= f5v + data.skip(p10v)) by {
        assert(data.subrange(p9, p10v) == f5v);
    }
    lemma_json_opt_str_unambiguous(
        v.failed_flush_queue_json,
        r.failed_flush_queue_json,
        data.skip(p10v),
        data.skip(p10r),
    );
    assert(v =~= r);
}

/// Splitting an escaped string at a content position: what stands before,
/// the one escaped byte, and what stands after.
proof fn lemma_esc_take_split(cb: Seq<u8>, k: int)
    requires
        0 <= k < cb.len(),
    ensures
        esc(cb) == (esc(cb.take(k)) + esc_byte(cb[k])) + esc(cb.skip(k + 1)),
        esc(cb).len() >= esc(cb.take(k)).len() + esc_byte(cb[k]).len(),
{
    lemma_esc_concat(cb.take(k), cb.skip(k));
    assert(cb.take(k) + cb.skip(k) =~= cb);
    assert(cb.skip(k).len() > 0);
    assert(cb.skip(k)[0] == cb[k]);
    assert(cb.skip(k).drop_first() =~= cb.skip(k + 1));
    assert(esc(cb.skip(k)) == esc_byte(cb[k]) + esc(cb.skip(k + 1)));
    assert(esc(cb.take(k)) + (esc_byte(cb[k]) + esc(cb.skip(k + 1))) =~= (esc(cb.take(k))
        + esc_byte(cb[k])) + esc(cb.skip(k + 1)));
}

/// What the input holds at the parser's position while it walks a
/// canonical escaped string: the next escaped byte, or the closing quote.
proof fn lemma_canon_head(data: Seq<u8>, p: int, cb: Seq<u8>, content: Seq<u8>)
    requires
        0 <= p,
        p + 2 + esc(cb).len() <= data.len(),
        data.subrange(p + 1, p + 1 + esc(cb).len()) == esc(cb),
        data[p + 1 + esc(cb).len()] == 34,
        content.len() <= cb.len(),
        content == cb.take(content.len() as int),
    ensures
        content.len() < cb.len() ==> ({
            let k = content.len() as int;
            let q = p + 1 + esc(content).len();
            &&& esc(content).len() + esc_byte(cb[k]).len() <= esc(cb).len()
            &&& data[q] == esc_byte(cb[k])[0]
            &&& (esc_byte(cb[k]).len() == 2 ==> data[q + 1] == esc_byte(cb[k])[1])
        }),
        content.len() == cb.len() ==> data[p + 1 + esc(content).len()] == 34,
{
    if content.len() < cb.len() {
        let k = content.len() as int;
        let q = p + 1 + esc(content).len();
        lemma_esc_take_split(cb, k);
        lemma_esc_byte_shape(cb[k]);
        assert(esc(content) == esc(cb.take(k)));
        let hd = esc(cb.take(k)) + esc_byte(cb[k]);
        assert(esc(cb)[esc(content).len() as int] == hd[esc(content).len() as int]);
        assert(hd[esc(content).len() as int] == esc_byte(cb[k])[0]);
        assert(data[q] == data.subrange(p + 1, p + 1 + esc(cb).len())[q - p - 1]);
        assert(data[q] == esc(cb)[esc(content).len() as int]);
        if esc_byte(cb[k]).len() == 2 {
            assert(esc(cb)[esc(content).len() as int + 1] == hd[esc(content).len() as int + 1]);
            assert(hd[esc(content).len() as int + 1] == esc_byte(cb[k])[1]);
            assert(data[q + 1] == data.subrange(p + 1, p + 1 + esc(cb).len())[q + 1 - p - 1]);
            assert(data[q + 1] == esc(cb)[esc(content).len() as int + 1]);
        }
    } else {
        assert(content =~= cb);
    }
}

/// Parse one JSON string body from just after the opening quote up to and
/// including the closing quote, undoing the escaping. `canon` carries the
/// fact that a canonical escaped string with content `cb` stands here; the
/// parser then cannot fail and returns exactly that content.
#[verifier::rlimit(100)]
fn parse_string_body(data: &Vec<u8>, p: usize, Ghost(canon): Ghost<bool>, Ghost(cb): Ghost<
    Seq<u8>,
>) -> (r: Option<(Vec<u8>, usize)>)
    requires
        p < data@.len(),
        data@[p as int] == 34,
        canon ==> p + 2 + esc(cb).len() <= data@.len() && data@.subrange(
            p + 1,
            p + 1 + esc(cb).len(),
        ) == esc(cb) && data@[p + 1 + esc(cb).len()] == 34,
    ensures
        r matches Some(pr) ==> p + 2 <= pr.1 <= data@.len() && data@.subrange(
            p as int,
            pr.1 as int,
        ) == (seq![34u8] + esc(pr.0@)) + seq![34u8],
        canon ==> (r matches Some(pr) && pr.0@ == cb && pr.1 == p + 2 + esc(cb).len()),
{
    let dn = data.len();
    let mut content: Vec<u8> = Vec::new();
    let mut q: usize = p + 1;
    proof {
        assert(content@ =~= Seq::<u8>::empty());
        assert(data@.subrange(p + 1, p + 1) =~= esc(content@));
        assert(content@ =~= cb.take(0));
    }
    while q < dn
        invariant
            p + 1 <= q <= dn,
            dn == data@.len(),
            data@[p as int] == 34,
            q == p + 1 + esc(content@).len(),
            data@.subrange(p + 1, q as int) == esc(content@),
            canon ==> p + 2 + esc(cb).len() <= dn && data@.subrange(p + 1, p + 1 + esc(cb).len())
                == esc(cb) && data@[p + 1 + esc(cb).len()] == 34,
            canon ==> content@.len() <= cb.len() && content@ == cb.take(content@.len() as int),
        decreases dn - q,
    {
        let b = data[q];
        proof {
            if canon {
                lemma_canon_head(data@, p as int, cb, content@);
                if content@.len() < cb.len() {
                    lemma_esc_byte_shape(cb[content@.len() as int]);
                }
            }
        }
        if b == 34 {
            proof {
                if canon {
                    assert(content@.len() == cb.len());
                    assert(content@ =~= cb);
                }
                assert(data@.subrange(p as int, q + 1) =~= (seq![34u8] + esc(content@))
                    + seq![34u8]);
            }
            return Some((content, q + 1));
        } else if b == 92 {
            if q + 1 >= dn {
                proof {
                    if canon {
                        assert(false);
                    }
                }
                return None;
            }
            let e = data[q + 1];
            if e == 34 || e == 92 {
                proof {
                    lemma_esc_snoc(content@, e);
                    lemma_esc_byte_shape(e);
                    if canon {
                        let k = content@.len() as int;
                        assert(k < cb.len());
                        assert(esc_byte(cb[k])[0] == 92);
                        assert(cb[k] == 34 || cb[k] == 92);
                        assert(esc_byte(cb[k]).len() == 2);
                        assert(cb[k] == e);
                        assert(cb.take(k).push(e) =~= cb.take(k + 1));
                    }
                }
                content.push(e);
                q = q + 2;
                proof {
                    assert(data@.subrange(p + 1, q as int) =~= esc(content@));
                }
            } else {
                proof {
                    if canon {
                        let k = content@.len() as int;
                        assert(k < cb.len());
                        assert(esc_byte(cb[k])[0] == 92);
                        assert(cb[k] == 34 || cb[k] == 92);
                        assert(esc_byte(cb[k]).len() == 2);
                        assert(false);
                    }
                }
                return None;
            }
        } else {
            proof {
                lemma_esc_snoc(content@, b);
                lemma_esc_byte_shape(b);
                if canon {
                    let k = content@.len() as int;
                    assert(k < cb.len());
                    assert(esc_byte(cb[k])[0] == b);
                    assert(!(cb[k] == 34 || cb[k] == 92));
                    assert(cb[k] == b);
                    assert(cb.take(k).push(b) =~= cb.take(k + 1));
                }
            }
            content.push(b);
            q = q + 1;
            proof {
                assert(data@.subrange(p + 1, q as int) =~= esc(content@));
            }
        }
    }
    proof {
        if canon {
            if content@.len() < cb.len() {
                lemma_esc_take_split(cb, content@.len() as int);
                lemma_esc_byte_shape(cb[content@.len() as int]);
                assert(esc(content@).len() < esc(cb).len());
            } else {
                assert(content@ =~= cb);
            }
            assert(q < dn);
            assert(false);
        }
    }
    None
}


/// Parse one field value at `p`: `null`, or a quoted escaped string that
/// must also be valid UTF-8. `canon` carries the fact that the canonical
/// spelling of the value `cv` stands here; the parser then cannot fail and
/// returns exactly that value.
#[verifier::rlimit(100)]
fn parse_opt_str(data: &Vec<u8>, p: usize, Ghost(canon): Ghost<bool>, Ghost(cv): Ghost<
    Option<Seq<char>>,
>) -> (r: Option<(Option<String>, usize)>)
    requires
        p <= data@.len(),
        canon ==> p + json_opt_str(cv).len() <= data@.len() && data@.subrange(
            p as int,
            p + json_opt_str(cv).len(),
        ) == json_opt_str(cv),
    ensures
        r matches Some(pr) ==> p + 2 <= pr.1 <= data@.len() && data@.subrange(
            p as int,
            pr.1 as int,
        ) == json_opt_str(opt_str_view(pr.0)),
        canon ==> (r matches Some(pr) && opt_str_view(pr.0) == cv && pr.1 == p + json_opt_str(
            cv,
        ).len()),
{
    let dn = data.len();
    let ghost cchars: Seq<char> = match cv {
        Some(c) => c,
        None => Seq::empty(),
    };
    let ghost cb: Seq<u8> = encode_utf8(cchars);
    if p < dn && data[p] == 34 {
        proof {
            if canon {
                let jos = json_opt_str(cv);
                assert(data@[p as int] == data@.subrange(p as int, p + jos.len())[0]);
                if cv is None {
                    assert(jos[0] == 110);
                    assert(false);
                }
                assert(cv == Some(cchars));
                assert(jos == (seq![34u8] + esc(cb)) + seq![34u8]);
                assert(jos.len() == 2 + esc(cb).len());
                assert(data@.subrange(p + 1, p + 1 + esc(cb).len()) =~= esc(cb)) by {
                    assert forall|i: int| 0 <= i < esc(cb).len() implies data@.subrange(
                        p + 1,
                        p + 1 + esc(cb).len(),
                    )[i] == esc(cb)[i] by {
                        assert(data@.subrange(p + 1, p + 1 + esc(cb).len())[i] == data@[p + 1
                            + i]);
                        assert(data@[p + 1 + i] == data@.subrange(p as int, p + jos.len())[1 + i]);
                        assert(jos[1 + i] == esc(cb)[i]);
                    }
                }
                assert(data@[p + 1 + esc(cb).len()] == data@.subrange(p as int, p + jos.len())[1
                    + esc(cb).len() as int]);
                assert(json_opt_str(cv)[1 + esc(cb).len() as int] == 34);
            }
        }
        match parse_string_body(data, p, Ghost(canon), Ghost(cb)) {
            Some((content, q)) => {
                let ghost cbytes = content@;
                match string_from_utf8(content) {
                    Some(s) => {
                        proof {
                            assert(encode_utf8(s@) == cbytes);
                            assert(data@.subrange(p as int, q as int) == (seq![34u8] + esc(
                                cbytes,
                            )) + seq![34u8]);
                            assert(json_opt_str(opt_str_view(Some(s))) == (seq![34u8] + esc(
                                encode_utf8(s@),
                            )) + seq![34u8]);
                            if canon {
                                assert(cbytes == cb);
                                encode_utf8_decode_utf8(s@);
                                encode_utf8_decode_utf8(cchars);
                                assert(s@ == cchars);
                                assert(q == p + json_opt_str(cv).len());
                            }
                        }
                        Some((Some(s), q))
                    },
                    None => {
                        proof {
                            if canon {
                                encode_utf8_valid_utf8(cchars);
                                assert(valid_utf8(cbytes));
                                assert(false);
                            }
                        }
                        None
                    },
                }
            },
            None => {
                None
            },
        }
    } else {
        let mut nl: Vec<u8> = Vec::new();
        push_null(&mut nl);
        proof {
            assert(nl@ =~= json_opt_str(None));
            if canon {
                if cv is Some {
                    assert(p < dn);
                    assert(data@[p as int] == data@.subrange(p as int, p + json_opt_str(
                        cv,
                    ).len())[0]);
                    assert(json_opt_str(cv)[0] == 34);
                    assert(false);
                }
            }
        }
        if region_at(data, p, &nl) {
            proof {
                assert(data@.subrange(p as int, p + 4) == json_opt_str(
                    opt_str_view(None::<String>),
                ));
            }
            Some((None, p + 4))
        } else {
            proof {
                if canon {
                    assert(json_opt_str(cv).len() == 4);
                    assert(data@.subrange(p as int, p + 4) == json_opt_str(cv));
                    assert(false);
                }
            }
            None
        }
    }
}

/// Bytes whose eleven parts each carry the canonical spelling of the
/// record's parts are exactly that record's encoding.
#[verifier::rlimit(100)]
proof fn lemma_sec_assemble(data: Seq<u8>, v: SecView, q1: int, q2: int, q3: int, q4: int, q5: int)
    requires
        16 <= q1,
        q1 + 18 <= q2,
        q2 + 23 <= q3,
        q3 + 16 <= q4,
        q4 + 24 <= q5,
        q5 + 1 == data.len(),
        data.subrange(0, 16) == sec_lit1(),
        data.subrange(16, q1) == json_opt_str(v.identity_json),
        data.subrange(q1, q1 + 18) == sec_lit2(),
        data.subrange(q1 + 18, q2) == json_opt_str(v.delegation_json),
        data.subrange(q2, q2 + 23) == sec_lit3(),
        data.subrange(q2 + 23, q3) == json_opt_str(v.revocation_queue_json),
        data.subrange(q3, q3 + 16) == sec_lit4(),
        data.subrange(q3 + 16, q4) == json_opt_str(v.audit_log_json),
        data.subrange(q4, q4 + 24) == sec_lit5(),
        data.subrange(q4 + 24, q5) == json_opt_str(v.failed_flush_queue_json),
        data[q5] == 125,
    ensures
        data == sec_json(v),
{
    lemma_sec_json_parts(v);
    let f1 = json_opt_str(v.identity_json);
    let f2 = json_opt_str(v.delegation_json);
    let f3 = json_opt_str(v.revocation_queue_json);
    let f4 = json_opt_str(v.audit_log_json);
    let f5 = json_opt_str(v.failed_flush_queue_json);
    assert(q1 == 16 + f1.len());
    assert(q2 == q1 + 18 + f2.len());
    assert(q3 == q2 + 23 + f3.len());
    assert(q4 == q3 + 16 + f4.len());
    assert(q5 == q4 + 24 + f5.len());
    let n = data.len() as int;
    assert(sec_json(v).len() == n);
    assert forall|i: int| 0 <= i < n implies data[i] == sec_json(v)[i] by {
        if i < 16 {
            assert(data[i] == data.subrange(0, 16)[i]);
            assert(sec_json(v)[i] == sec_json(v).subrange(0, 16)[i]);
        } else if i < q1 {
            assert(data[i] == data.subrange(16, q1)[i - 16]);
            assert(sec_json(v)[i] == sec_json(v).subrange(16, q1)[i - 16]);
        } else if i < q1 + 18 {
            assert(data[i] == data.subrange(q1, q1 + 18)[i - q1]);
            assert(sec_json(v)[i] == sec_json(v).subrange(q1, q1 + 18)[i - q1]);
        } else if i < q2 {
            assert(data[i] == data.subrange(q1 + 18, q2)[i - q1 - 18]);
            assert(sec_json(v)[i] == sec_json(v).subrange(q1 + 18, q2)[i - q1 - 18]);
        } else if i < q2 + 23 {
            assert(data[i] == data.subrange(q2, q2 + 23)[i - q2]);
            assert(sec_json(v)[i] == sec_json(v).subrange(q2, q2 + 23)[i - q2]);
        } else if i < q3 {
            assert(data[i] == data.subrange(q2 + 23, q3)[i - q2 - 23]);
            assert(sec_json(v)[i] == sec_json(v).subrange(q2 + 23, q3)[i - q2 - 23]);
        } else if i < q3 + 16 {
            assert(data[i] == data.subrange(q3, q3 + 16)[i - q3]);
            assert(sec_json(v)[i] == sec_json(v).subrange(q3, q3 + 16)[i - q3]);
        } else if i < q4 {
            assert(data[i] == data.subrange(q3 + 16, q4)[i - q3 - 16]);
            assert(sec_json(v)[i] == sec_json(v).subrange(q3 + 16, q4)[i - q3 - 16]);
        } else if i < q4 + 24 {
            assert(data[i] == data.subrange(q4, q4 + 24)[i - q4]);
            assert(sec_json(v)[i] == sec_json(v).subrange(q4, q4 + 24)[i - q4]);
        } else if i < q5 {
            assert(data[i] == data.subrange(q4 + 24, q5)[i - q4 - 24]);
            assert(sec_json(v)[i] == sec_json(v).subrange(q4 + 24, q5)[i - q4 - 24]);
        } else {
            assert(data[i] == 125);
            assert(sec_json(v)[i] == 125);
        }
    }
    assert(data =~= sec_json(v));
}

/// The empty security record.
fn empty_security_state() -> (r: SecurityState)
    ensures
        r@ == SecView::empty(),
{
    SecurityState {
        identity_json: None,
        delegation_json: None,
        revocation_queue_json: None,
        audit_log_json: None,
        failed_flush_queue_json: None,
    }
}

/// Decode a security record from file bytes. Exactly the canonical
/// encodings are accepted; anything else falls back to the empty record.
#[verifier::rlimit(100)]
pub fn decode_security_state(data: &Vec<u8>) -> (r: SecurityState)
    ensures
        forall|v: SecView| data@ == sec_json(v) ==> r@ == v,
        r@ == SecView::empty() || data@ == sec_json(r@),
{
    let ghost canon: bool = exists|v: SecView| data@ == sec_json(v);
    let ghost v0: SecView = choose|v: SecView| data@ == sec_json(v);
    proof {
        if canon {
            lemma_sec_json_parts(v0);
        }
    }
    let dn = data.len();
    let mut l1: Vec<u8> = Vec::new();
    push_sec_lit1(&mut l1);
    let mut l2: Vec<u8> = Vec::new();
    push_sec_lit2(&mut l2);
    let mut l3: Vec<u8> = Vec::new();
    push_sec_lit3(&mut l3);
    let mut l4: Vec<u8> = Vec::new();
    push_sec_lit4(&mut l4);
    let mut l5: Vec<u8> = Vec::new();
    push_sec_lit5(&mut l5);
    proof {
        assert(l1@ =~= sec_lit1());
        assert(l2@ =~= sec_lit2());
        assert(l3@ =~= sec_lit3());
        assert(l4@ =~= sec_lit4());
        assert(l5@ =~= sec_lit5());
    }
    if !region_at(data, 0, &l1) {
        proof {
            if canon {
                assert(false);
            }
        }
        return empty_security_state();
    }
    let r1 = parse_opt_str(data, 16, Ghost(canon), Ghost(v0.identity_json));
    let (val1, q1) = match r1 {
        Some(pr) => pr,
        None => {
            return empty_security_state();
        },
    };
    if !region_at(data, q1, &l2) {
        proof {
            if canon {
                assert(false);
            }
        }
        return empty_security_state();
    }
    let r2 = parse_opt_str(data, q1 + 18, Ghost(canon), Ghost(v0.delegation_json));
    let (val2, q2) = match r2 {
        Some(pr) => pr,
        None => {
            return empty_security_state();
        },
    };
    if !region_at(data, q2, &l3) {
        proof {
            if canon {
                assert(false);
            }
        }
        return empty_security_state();
    }
    let r3 = parse_opt_str(data, q2 + 23, Ghost(canon), Ghost(v0.revocation_queue_json));
    let (val3, q3) = match r3 {
        Some(pr) => pr,
        None => {
            return empty_security_state();
        },
    };
    if !region_at(data, q3, &l4) {
        proof {
            if canon {
                assert(false);
            }
        }
        return empty_security_state();
    }
    let r4 = parse_opt_str(data, q3 + 16, Ghost(canon), Ghost(v0.audit_log_json));
    let (val4, q4) = match r4 {
        Some(pr) => pr,
        None => {
            return empty_security_state();
        },
    };
    if !region_at(data, q4, &l5) {
        proof {
            if canon {
                assert(false);
            }
        }
        return empty_security_state();
    }
    let r5 = parse_opt_str(data, q4 + 24, Ghost(canon), Ghost(v0.failed_flush_queue_json));
    let (val5, q5) = match r5 {
        Some(pr) => pr,
        None => {
            return empty_security_state();
        },
    };
    if q5 < dn && data[q5] == 125 && q5 + 1 == dn {
        let st = SecurityState {
            identity_json: val1,
            delegation_json: val2,
            revocation_queue_json: val3,
            audit_log_json: val4,
            failed_flush_queue_json: val5,
        };
        proof {
            lemma_sec_assemble(
                data@,
                st@,
                q1 as int,
                q2 as int,
                q3 as int,
                q4 as int,
                q5 as int,
            );
            assert forall|v: SecView| data@ == sec_json(v) implies st@ == v by {
                lemma_sec_json_pins(data@, st@, v);
            }
        }
        st
    } else {
        proof {
            if canon {
                assert(false);
            }
        }
        empty_security_state()
    }
}


/// The persistence round trip for the security record: one byte string is
/// the canonical encoding of at most one record, so a record written to
/// disk and read back in a fresh process carries the same five values.
pub proof fn lemma_sec_json_injective(a: SecView, b: SecView)
    requires
        sec_json(a) == sec_json(b),
    ensures
        a == b,
{
    lemma_sec_json_pins(sec_json(a), b, a);
}

} // verus!
