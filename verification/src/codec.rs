//! The byte codec for the two persisted records.
//!
//! Each record is mirrored to disk as one flat JSON object. The encoder
//! always writes one canonical form; the decoder accepts exactly that form
//! and falls back to the default record on anything else, as a missing or
//! malformed file must load silently as the default. The decoder's contract
//! states both directions: whatever an encoder wrote decodes to the record
//! it came from, and anything that decodes to a non-default record is
//! exactly an encoding of that record.

use vstd::prelude::*;

use crate::node::PrivateNodeState;

verus! {

/// The bytes `{"online":` that open the node record.
pub open spec fn node_prefix() -> Seq<u8> {
    seq![123u8, 34u8, 111u8, 110u8, 108u8, 105u8, 110u8, 101u8, 34u8, 58u8]
}

/// The bytes `,"peer_count":` between the two node fields.
pub open spec fn node_mid() -> Seq<u8> {
    seq![44u8, 34u8, 112u8, 101u8, 101u8, 114u8, 95u8, 99u8, 111u8, 117u8, 110u8, 116u8, 34u8,
        58u8]
}

/// The JSON spelling of a boolean.
pub open spec fn json_bool(b: bool) -> Seq<u8> {
    if b {
        seq![116u8, 114u8, 117u8, 101u8]
    } else {
        seq![102u8, 97u8, 108u8, 115u8, 101u8]
    }
}

/// The ASCII digit for a value below ten.
pub open spec fn digit(v: int) -> u8 {
    (48 + v) as u8
}

/// The canonical decimal spelling of a non-negative number: no sign, no
/// leading zero.
pub open spec fn dec_digits(v: int) -> Seq<u8>
    decreases v,
{
    if v < 10 {
        seq![digit(v)]
    } else {
        dec_digits(v / 10).push(digit(v % 10))
    }
}

/// The whole canonical node-record object, for example
/// `{"online":false,"peer_count":0}`.
pub open spec fn node_json(st: PrivateNodeState) -> Seq<u8> {
    node_prefix() + json_bool(st.online) + node_mid() + dec_digits(st.peer_count as int) + seq![
        125u8,
    ]
}

/// The number a digit string denotes, most significant digit first.
pub open spec fn digits_val(s: Seq<u8>) -> int
    decreases s.len(),
{
    if s.len() == 0 {
        0
    } else {
        digits_val(s.drop_last()) * 10 + (s.last() - 48)
    }
}

/// Whether every byte is an ASCII digit.
pub open spec fn all_digits(s: Seq<u8>) -> bool {
    forall|i: int| 0 <= i < s.len() ==> 48 <= #[trigger] s[i] <= 57
}

/// Ten to the `k`.
pub open spec fn pow10(k: nat) -> int
    decreases k,
{
    if k == 0 {
        1
    } else {
        10 * pow10((k - 1) as nat)
    }
}

/// A digit byte is its value plus 48.
proof fn lemma_digit_id(v: int)
    requires
        0 <= v <= 9,
    ensures
        digit(v) == 48 + v,
        48 <= digit(v) <= 57,
{
}

/// The canonical decimal spelling: every byte a digit, no leading zero,
/// and it denotes the number it was made from, in at most five digits for
/// a number that fits the counter.
proof fn lemma_dec_digits_props(v: int)
    requires
        0 <= v,
    ensures
        all_digits(dec_digits(v)),
        dec_digits(v).len() >= 1,
        v >= 1 ==> dec_digits(v)[0] != 48,
        dec_digits(v).len() > 1 ==> dec_digits(v)[0] != 48,
        digits_val(dec_digits(v)) == v,
        v < 10 ==> dec_digits(v).len() == 1,
        v < 100 ==> dec_digits(v).len() <= 2,
        v < 1000 ==> dec_digits(v).len() <= 3,
        v < 10000 ==> dec_digits(v).len() <= 4,
        v < 100000 ==> dec_digits(v).len() <= 5,
    decreases v,
{
    if v < 10 {
        lemma_digit_id(v);
        let s = dec_digits(v);
        assert(s == seq![digit(v)]);
        assert(s.len() == 1);
        assert(s.last() == digit(v));
        assert(s.drop_last() =~= Seq::<u8>::empty());
        assert(digits_val(s.drop_last()) == 0);
        assert(digits_val(s) == digits_val(s.drop_last()) * 10 + (s.last() - 48));
        assert(digits_val(s) == v);
        assert forall|i: int| 0 <= i < s.len() implies 48 <= #[trigger] s[i] <= 57 by {
            assert(s[i] == digit(v));
        }
    } else {
        lemma_dec_digits_props(v / 10);
        vstd::arithmetic::div_mod::lemma_fundamental_div_mod(v, 10);
        lemma_digit_id(v % 10);
        let s = dec_digits(v / 10);
        let w = dec_digits(v);
        assert(w == s.push(digit(v % 10)));
        assert(w.drop_last() =~= s);
        assert(w.last() == digit(v % 10));
        assert(digits_val(w) == digits_val(s) * 10 + (digit(v % 10) - 48));
        assert(digits_val(w) == (v / 10) * 10 + v % 10);
        assert(w[0] == s[0]);
        assert(v / 10 >= 1);
        assert(s[0] != 48);
        assert forall|i: int| 0 <= i < w.len() implies 48 <= #[trigger] w[i] <= 57 by {
            if i < s.len() {
                assert(w[i] == s[i]);
            } else {
                assert(w[i] == digit(v % 10));
            }
        }
    }
}

/// `pow10` is positive and grows with its exponent.
proof fn lemma_pow10_ordered(a: nat, b: nat)
    requires
        a <= b,
    ensures
        1 <= pow10(a) <= pow10(b),
    decreases b,
{
    if b > 0 {
        if a == b {
            lemma_pow10_ordered((b - 1) as nat, (b - 1) as nat);
        } else {
            lemma_pow10_ordered(a, (b - 1) as nat);
        }
    }
}

/// A digit string denotes a non-negative number below ten to its length,
/// and at least its leading digit's value.
proof fn lemma_digits_val_bounds(s: Seq<u8>)
    requires
        all_digits(s),
    ensures
        0 <= digits_val(s),
        digits_val(s) < pow10(s.len()),
        s.len() >= 1 ==> digits_val(s) >= s[0] - 48,
    decreases s.len(),
{
    if s.len() == 0 {
    } else {
        let t = s.drop_last();
        assert(all_digits(t));
        lemma_digits_val_bounds(t);
        assert(pow10(s.len()) == 10 * pow10(t.len()));
        assert(48 <= s.last() <= 57);
        if s.len() >= 2 {
            assert(t[0] == s[0]);
        }
    }
}

/// A digit string with no leading zero is the canonical spelling of the
/// number it denotes.
proof fn lemma_digits_canonical(s: Seq<u8>)
    requires
        all_digits(s),
        s.len() >= 1,
        s.len() > 1 ==> s[0] != 48,
    ensures
        dec_digits(digits_val(s)) == s,
    decreases s.len(),
{
    lemma_digits_val_bounds(s);
    let v = digits_val(s);
    if s.len() == 1 {
        assert(s.drop_last() =~= Seq::<u8>::empty());
        assert(digits_val(s.drop_last()) == 0);
        assert(v == s.last() - 48);
        assert(s.last() == s[0]);
        assert(v < 10);
        lemma_digit_id(v);
        assert(dec_digits(v) == seq![digit(v)]);
        assert(dec_digits(v) =~= s);
    } else {
        let t = s.drop_last();
        assert(t[0] == s[0]);
        assert(all_digits(t));
        lemma_digits_val_bounds(t);
        assert(digits_val(t) >= s[0] - 48);
        assert(digits_val(t) >= 1);
        let w = digits_val(t);
        assert(48 <= s.last() <= 57);
        assert(v == w * 10 + (s.last() - 48));
        assert(v >= 10);
        vstd::arithmetic::div_mod::lemma_fundamental_div_mod_converse(
            v,
            10,
            w,
            (s.last() - 48) as int,
        );
        assert(v / 10 == w);
        assert(v % 10 == s.last() - 48);
        lemma_digits_canonical(t);
        assert(dec_digits(v) == dec_digits(w).push(digit(v % 10)));
        lemma_digit_id(v % 10);
        assert(digit(v % 10) == s.last());
        assert(dec_digits(v) =~= s);
    }
}

/// Where each part of the canonical node object stands.
proof fn lemma_node_json_parts(st: PrivateNodeState)
    ensures
        ({
            let bl = json_bool(st.online).len() as int;
            let dl = dec_digits(st.peer_count as int).len() as int;
            &&& node_json(st).len() == 25 + bl + dl
            &&& node_json(st).subrange(0, 10) == node_prefix()
            &&& node_json(st).subrange(10, 10 + bl) == json_bool(st.online)
            &&& node_json(st).subrange(10 + bl, 24 + bl) == node_mid()
            &&& node_json(st).subrange(24 + bl, 24 + bl + dl) == dec_digits(st.peer_count as int)
            &&& node_json(st)[24 + bl + dl] == 125u8
        }),
{
    let bl = json_bool(st.online).len() as int;
    let dl = dec_digits(st.peer_count as int).len() as int;
    lemma_dec_digits_props(st.peer_count as int);
    assert(node_json(st).subrange(0, 10) =~= node_prefix());
    assert(node_json(st).subrange(10, 10 + bl) =~= json_bool(st.online));
    assert(node_json(st).subrange(10 + bl, 24 + bl) =~= node_mid());
    assert(node_json(st).subrange(24 + bl, 24 + bl + dl) =~= dec_digits(st.peer_count as int));
}

/// Bytes that do not open with `{"online":` encode no node record.
proof fn lemma_node_reject_prefix(data: Seq<u8>)
    requires
        !(data.len() >= 10 && data.subrange(0, 10) == node_prefix()),
    ensures
        forall|st: PrivateNodeState| data != node_json(st),
{
    assert forall|st: PrivateNodeState| data != node_json(st) by {
        lemma_node_json_parts(st);
    }
}

/// Bytes whose value after `{"online":` is neither `true` nor `false`
/// encode no node record.
proof fn lemma_node_reject_bool(data: Seq<u8>)
    requires
        !(data.len() >= 14 && data.subrange(10, 14) == json_bool(true)),
        !(data.len() >= 15 && data.subrange(10, 15) == json_bool(false)),
    ensures
        forall|st: PrivateNodeState| data != node_json(st),
{
    assert forall|st: PrivateNodeState| data != node_json(st) by {
        lemma_node_json_parts(st);
    }
}

/// In an encoding, the parsed boolean pins the record's flag.
proof fn lemma_node_bool_pins(data: Seq<u8>, online: bool)
    requires
        data.len() >= 10 + json_bool(online).len(),
        data.subrange(10, 10 + json_bool(online).len() as int) == json_bool(online),
    ensures
        forall|st: PrivateNodeState| data == node_json(st) ==> st.online == online,
{
    assert forall|st: PrivateNodeState| data == node_json(st) implies st.online == online by {
        lemma_node_json_parts(st);
        let bl = json_bool(st.online).len() as int;
        assert(data[10] == data.subrange(10, 10 + bl)[0]);
        assert(data[10] == json_bool(st.online)[0]);
        assert(data[10] == data.subrange(10, 10 + json_bool(online).len() as int)[0]);
        assert(data[10] == json_bool(online)[0]);
    }
}

/// Bytes that carry the right opening and boolean but not the rest of the
/// canonical object encode no node record.
proof fn lemma_node_reject_tail(data: Seq<u8>, online: bool)
    requires
        data.len() >= 10 + json_bool(online).len(),
        data.subrange(10, 10 + json_bool(online).len() as int) == json_bool(online),
        !({
            let ab = 10 + json_bool(online).len() as int;
            let dlen = data.len() as int;
            &&& dlen >= ab + 16
            &&& data.subrange(ab, ab + 14) == node_mid()
            &&& data[dlen - 1] == 125u8
            &&& all_digits(data.subrange(ab + 14, dlen - 1))
            &&& data.subrange(ab + 14, dlen - 1).len() <= 5
            &&& (data.subrange(ab + 14, dlen - 1).len() > 1 ==> data.subrange(
                ab + 14,
                dlen - 1,
            )[0] != 48)
            &&& digits_val(data.subrange(ab + 14, dlen - 1)) <= 65535
        }),
    ensures
        forall|st: PrivateNodeState| data != node_json(st),
{
    assert forall|st: PrivateNodeState| data != node_json(st) by {
        if data == node_json(st) {
            lemma_node_json_parts(st);
            lemma_dec_digits_props(st.peer_count as int);
            lemma_node_bool_pins(data, online);
            assert(st.online == online);
            let bl = json_bool(st.online).len() as int;
            let dl = dec_digits(st.peer_count as int).len() as int;
            let ab = 10 + bl;
            let dlen = data.len() as int;
            assert(dlen == 25 + bl + dl);
            assert(dlen - 1 == ab + 14 + dl);
            assert(data.subrange(ab + 14, dlen - 1) == dec_digits(st.peer_count as int));
            assert(digits_val(data.subrange(ab + 14, dlen - 1)) == st.peer_count as int);
        }
    }
}

/// Bytes that pass every canonical check are exactly the encoding of the
/// record they spell, and of no other record.
proof fn lemma_node_accept(data: Seq<u8>, online: bool, v: int)
    requires
        data.len() >= 10 + json_bool(online).len(),
        data.subrange(0, 10) == node_prefix(),
        data.subrange(10, 10 + json_bool(online).len() as int) == json_bool(online),
        ({
            let ab = 10 + json_bool(online).len() as int;
            let dlen = data.len() as int;
            &&& dlen >= ab + 16
            &&& data.subrange(ab, ab + 14) == node_mid()
            &&& data[dlen - 1] == 125u8
            &&& all_digits(data.subrange(ab + 14, dlen - 1))
            &&& 1 <= data.subrange(ab + 14, dlen - 1).len() <= 5
            &&& (data.subrange(ab + 14, dlen - 1).len() > 1 ==> data.subrange(
                ab + 14,
                dlen - 1,
            )[0] != 48)
            &&& digits_val(data.subrange(ab + 14, dlen - 1)) == v
            &&& 0 <= v <= 65535
        }),
    ensures
        data == node_json(PrivateNodeState { online, peer_count: v as u16 }),
        forall|st: PrivateNodeState| data == node_json(st) ==> st == (PrivateNodeState {
            online,
            peer_count: v as u16,
        }),
{
    let res = PrivateNodeState { online, peer_count: v as u16 };
    let ab = 10 + json_bool(online).len() as int;
    let dlen = data.len() as int;
    let ds = data.subrange(ab + 14, dlen - 1);
    lemma_digits_canonical(ds);
    assert(res.peer_count as int == v);
    assert(dec_digits(res.peer_count as int) == ds);
    lemma_node_json_parts(res);
    let bl = json_bool(res.online).len() as int;
    let dl = ds.len() as int;
    assert(node_json(res).len() == 25 + bl + dl);
    assert(dlen == 25 + bl + dl);
    assert forall|i: int| 0 <= i < dlen implies data[i] == node_json(res)[i] by {
        if i < 10 {
            assert(data[i] == data.subrange(0, 10)[i]);
            assert(node_json(res)[i] == node_json(res).subrange(0, 10)[i]);
        } else if i < ab {
            assert(data[i] == data.subrange(10, ab)[i - 10]);
            assert(node_json(res)[i] == node_json(res).subrange(10, 10 + bl)[i - 10]);
        } else if i < ab + 14 {
            assert(data[i] == data.subrange(ab, ab + 14)[i - ab]);
            assert(node_json(res)[i] == node_json(res).subrange(10 + bl, 24 + bl)[i - 10 - bl]);
        } else if i < dlen - 1 {
            assert(data[i] == ds[i - ab - 14]);
            assert(node_json(res)[i] == node_json(res).subrange(24 + bl, 24 + bl + dl)[i - 24
                - bl]);
        } else {
            assert(data[i] == 125u8);
            assert(node_json(res)[i] == 125u8);
        }
    }
    assert(data =~= node_json(res));
    assert forall|st: PrivateNodeState| data == node_json(st) implies st == res by {
        lemma_node_json_parts(st);
        lemma_dec_digits_props(st.peer_count as int);
        lemma_node_bool_pins(data, online);
        assert(st.online == online);
        let bl2 = json_bool(st.online).len() as int;
        assert(data.subrange(10 + bl2 + 14, dlen - 1) == dec_digits(st.peer_count as int));
        assert(digits_val(dec_digits(st.peer_count as int)) == st.peer_count as int);
        assert(st.peer_count as int == v);
    }
}

/// Append the bytes `{"online":`.
fn push_node_prefix(out: &mut Vec<u8>)
    ensures
        final(out)@ == old(out)@ + node_prefix(),
{
    out.push(123);
    out.push(34);
    out.push(111);
    out.push(110);
    out.push(108);
    out.push(105);
    out.push(110);
    out.push(101);
    out.push(34);
    out.push(58);
    proof {
        assert(out@ =~= old(out)@ + node_prefix());
    }
}

/// Append the bytes `,"peer_count":`.
fn push_node_mid(out: &mut Vec<u8>)
    ensures
        final(out)@ == old(out)@ + node_mid(),
{
    out.push(44);
    out.push(34);
    out.push(112);
    out.push(101);
    out.push(101);
    out.push(114);
    out.push(95);
    out.push(99);
    out.push(111);
    out.push(117);
    out.push(110);
    out.push(116);
    out.push(34);
    out.push(58);
    proof {
        assert(out@ =~= old(out)@ + node_mid());
    }
}

/// Append `true` or `false`.
fn push_json_bool(out: &mut Vec<u8>, b: bool)
    ensures
        final(out)@ == old(out)@ + json_bool(b),
{
    if b {
        out.push(116);
        out.push(114);
        out.push(117);
        out.push(101);
    } else {
        out.push(102);
        out.push(97);
        out.push(108);
        out.push(115);
        out.push(101);
    }
    proof {
        assert(out@ =~= old(out)@ + json_bool(b));
    }
}

/// Append the canonical decimal spelling of `n`.
fn push_dec_u16(out: &mut Vec<u8>, n: u16)
    ensures
        final(out)@ == old(out)@ + dec_digits(n as int),
    decreases n,
{
    if n >= 10 {
        push_dec_u16(out, n / 10);
        out.push(48 + (n % 10) as u8);
        proof {
            assert(out@ =~= old(out)@ + dec_digits(n as int));
        }
    } else {
        out.push(48 + n as u8);
        proof {
            lemma_digit_id(n as int);
            assert(out@ =~= old(out)@ + dec_digits(n as int));
        }
    }
}

/// Encode the node record as its canonical JSON object.
pub fn encode_private_node_state(state: &PrivateNodeState) -> (r: Vec<u8>)
    ensures
        r@ == node_json(*state),
{
    let mut out: Vec<u8> = Vec::new();
    push_node_prefix(&mut out);
    push_json_bool(&mut out, state.online);
    push_node_mid(&mut out);
    push_dec_u16(&mut out, state.peer_count);
    out.push(125);
    proof {
        assert(out@ =~= node_json(*state));
    }
    out
}

/// Whether `data` carries exactly the bytes of `lit` starting at `p`.
pub(crate) fn region_at(data: &Vec<u8>, p: usize, lit: &Vec<u8>) -> (r: bool)
    requires
        p <= data@.len(),
    ensures
        r == (p + lit@.len() <= data@.len() && data@.subrange(
            p as int,
            p as int + lit@.len() as int,
        ) == lit@),
{
    let n = lit.len();
    let dn = data.len();
    if n > dn - p {
        return false;
    }
    let mut i: usize = 0;
    while i < n
        invariant
            0 <= i <= n,
            n == lit@.len(),
            dn == data@.len(),
            p + n <= dn,
            forall|k: int| 0 <= k < i ==> data@[p + k] == lit@[k],
        decreases n - i,
    {
        if data[p + i] != lit[i] {
            proof {
                let sub = data@.subrange(p as int, p as int + n as int);
                assert(sub[i as int] == data@[p + i]);
                assert(sub[i as int] != lit@[i as int]);
            }
            return false;
        }
        i = i + 1;
    }
    proof {
        assert(data@.subrange(p as int, p as int + n as int) =~= lit@);
    }
    true
}

/// The default node record that a missing or malformed file falls back to.
pub open spec fn default_node() -> PrivateNodeState {
    PrivateNodeState { online: false, peer_count: 0u16 }
}

/// Decode a node record from file bytes. Exactly the canonical encodings
/// are accepted; anything else falls back to the default record.
pub fn decode_private_node_state(data: &Vec<u8>) -> (r: PrivateNodeState)
    ensures
        forall|st: PrivateNodeState| data@ == node_json(st) ==> r == st,
        r == default_node() || data@ == node_json(r),
{
    let mut pre: Vec<u8> = Vec::new();
    push_node_prefix(&mut pre);
    if !region_at(data, 0, &pre) {
        proof {
            lemma_node_reject_prefix(data@);
        }
        return PrivateNodeState { online: false, peer_count: 0 };
    }
    let mut tlit: Vec<u8> = Vec::new();
    push_json_bool(&mut tlit, true);
    let mut flit: Vec<u8> = Vec::new();
    push_json_bool(&mut flit, false);
    let online: bool;
    let after_bool: usize;
    if region_at(data, 10, &tlit) {
        online = true;
        after_bool = 14;
    } else if region_at(data, 10, &flit) {
        online = false;
        after_bool = 15;
    } else {
        proof {
            lemma_node_reject_bool(data@);
        }
        return PrivateNodeState { online: false, peer_count: 0 };
    }
    let mut mid: Vec<u8> = Vec::new();
    push_node_mid(&mut mid);
    let dn = data.len();
    if !region_at(data, after_bool, &mid) || dn < after_bool + 16 || data[dn - 1] != 125 {
        proof {
            lemma_node_reject_tail(data@, online);
        }
        return PrivateNodeState { online: false, peer_count: 0 };
    }
    let pd = after_bool + 14;
    let end = dn - 1;
    let k = end - pd;
    if k > 5 {
        proof {
            lemma_node_reject_tail(data@, online);
        }
        return PrivateNodeState { online: false, peer_count: 0 };
    }
    let mut val: u32 = 0;
    let mut q = pd;
    proof {
        assert(data@.subrange(pd as int, pd as int) =~= Seq::<u8>::empty());
    }
    while q < end
        invariant
            pd <= q <= end,
            end < dn,
            dn == data@.len(),
            end - pd <= 5,
            val == digits_val(data@.subrange(pd as int, q as int)),
            all_digits(data@.subrange(pd as int, q as int)),
            val < pow10((q - pd) as nat),
            data.len() >= 10 + json_bool(online).len(),
            data@.subrange(10, 10 + json_bool(online).len() as int) == json_bool(online),
            pd == 10 + json_bool(online).len() + 14,
        decreases end - q,
    {
        let b = data[q];
        if b < 48 || b > 57 {
            proof {
                let ds = data@.subrange(pd as int, end as int);
                assert(ds[q - pd] == b);
                assert(!all_digits(ds));
                lemma_node_reject_tail(data@, online);
            }
            return PrivateNodeState { online: false, peer_count: 0 };
        }
        proof {
            reveal_with_fuel(pow10, 7);
            lemma_pow10_ordered((q - pd) as nat, 4);
            let sub = data@.subrange(pd as int, q as int);
            let sub2 = data@.subrange(pd as int, q + 1);
            assert(sub2.drop_last() =~= sub);
            assert(sub2.last() == b);
        }
        val = val * 10 + (b - 48) as u32;
        q = q + 1;
    }
    if (k > 1 && data[pd] == 48) || val > 65535 {
        proof {
            lemma_node_reject_tail(data@, online);
        }
        return PrivateNodeState { online: false, peer_count: 0 };
    }
    let result = PrivateNodeState { online, peer_count: val as u16 };
    proof {
        lemma_node_accept(data@, online, val as int);
    }
    result
}


/// The persistence round trip for the node record: one byte string is the
/// canonical encoding of at most one record, so a record written to disk
/// and read back in a fresh process is the same record.
pub proof fn lemma_node_json_injective(a: PrivateNodeState, b: PrivateNodeState)
    requires
        node_json(a) == node_json(b),
    ensures
        a == b,
{
    lemma_node_json_parts(a);
    lemma_node_json_parts(b);
    lemma_dec_digits_props(a.peer_count as int);
    lemma_dec_digits_props(b.peer_count as int);
    let d = node_json(a);
    let bla = json_bool(a.online).len() as int;
    let blb = json_bool(b.online).len() as int;
    assert(d[10] == d.subrange(10, 10 + bla)[0]);
    assert(d[10] == json_bool(a.online)[0]);
    assert(node_json(b)[10] == node_json(b).subrange(10, 10 + blb)[0]);
    assert(node_json(b)[10] == json_bool(b.online)[0]);
    assert(a.online == b.online);
    let dla = dec_digits(a.peer_count as int).len() as int;
    let dlb = dec_digits(b.peer_count as int).len() as int;
    assert(25 + bla + dla == 25 + blb + dlb);
    assert(d.subrange(24 + bla, 24 + bla + dla) == dec_digits(a.peer_count as int));
    assert(node_json(b).subrange(24 + blb, 24 + blb + dlb) == dec_digits(b.peer_count as int));
    assert(dec_digits(a.peer_count as int) == dec_digits(b.peer_count as int));
    assert(a.peer_count as int == b.peer_count as int);
}

} // verus!
