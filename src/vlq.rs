use vstd::prelude::*;
use vstd::arithmetic::power::pow;

use crate::error::IpcError;
use crate::io::Read;

verus! {

/// Most groups a `u64` can take: ten groups of seven bits cover 64 bits.
pub const MAX_VLQ_GROUPS: usize = 10;

/// The canonical encoding of `v`: seven-bit groups, least significant first,
/// with the continuation bit set on every byte but the last.
pub open spec fn vlq_bytes(v: nat) -> Seq<u8>
    decreases v,
{
    if v < 128 {
        seq![v as u8]
    } else {
        seq![((v % 128) + 128) as u8] + vlq_bytes(v / 128)
    }
}

/// The value carried by the seven-bit groups of `s`, least significant first.
pub open spec fn groups_value(s: Seq<u8>) -> nat
    decreases s.len(),
{
    if s.len() == 0 {
        0
    } else {
        (s[0] % 128) as nat + 128 * groups_value(s.drop_first())
    }
}

/// `s` starts with a sequence of `n` bytes whose last one alone lacks the
/// continuation bit.
pub open spec fn terminated_at(s: Seq<u8>, n: nat) -> bool {
    &&& 1 <= n <= s.len()
    &&& s[n - 1] < 128
    &&& forall|j: int| 0 <= j < n - 1 ==> s[j] >= 128
}

/// What decoding the front of `s` yields: the value and the number of bytes
/// it took, or why it fails.
pub open spec fn vlq_decoded(s: Seq<u8>) -> Result<(u64, nat), IpcError> {
    if exists|n: nat| n <= MAX_VLQ_GROUPS && terminated_at(s, n) {
        let n = choose|n: nat| n <= MAX_VLQ_GROUPS && terminated_at(s, n);
        let v = groups_value(s.take(n as int));
        if v <= u64::MAX {
            Ok((v as u64, n))
        } else {
            Err(IpcError::DecodeVlqOverflow)
        }
    } else if s.len() >= MAX_VLQ_GROUPS {
        Err(IpcError::DecodeVlqOverflow)
    } else {
        Err(IpcError::IncompleteVlqSeq)
    }
}

proof fn lemma_terminated_unique(s: Seq<u8>, n: nat, m: nat)
    requires
        terminated_at(s, n),
        terminated_at(s, m),
    ensures
        n == m,
{
    if n < m {
        assert(s[n - 1] >= 128);
    } else if m < n {
        assert(s[m - 1] >= 128);
    }
}

/// Appending one group adds it at the next weight.
proof fn lemma_groups_value_push(s: Seq<u8>, b: u8)
    ensures
        groups_value(s.push(b)) == groups_value(s) + (b % 128) as nat * pow(128, s.len()),
    decreases s.len(),
{
    if s.len() == 0 {
        assert(s.push(b).drop_first() =~= Seq::<u8>::empty());
        assert(groups_value(Seq::<u8>::empty()) == 0);
        vstd::arithmetic::power::lemma_pow0(128);
    } else {
        assert(s.push(b).drop_first() =~= s.drop_first().push(b));
        lemma_groups_value_push(s.drop_first(), b);
        vstd::arithmetic::power::lemma_pow_adds(128, 1, (s.len() - 1) as nat);
        vstd::arithmetic::power::lemma_pow1(128);
        let p = pow(128, (s.len() - 1) as nat);
        let g = (b % 128) as nat;
        assert(128 * (groups_value(s.drop_first()) + g * p) == 128 * groups_value(s.drop_first())
            + g * (128 * p)) by (nonlinear_arith);
    }
}

/// The groups of `s` hold less than `128^len`.
proof fn lemma_groups_value_bound(s: Seq<u8>)
    ensures
        groups_value(s) < pow(128, s.len()),
    decreases s.len(),
{
    if s.len() == 0 {
        vstd::arithmetic::power::lemma_pow0(128);
    } else {
        lemma_groups_value_bound(s.drop_first());
        vstd::arithmetic::power::lemma_pow_adds(128, 1, (s.len() - 1) as nat);
        vstd::arithmetic::power::lemma_pow1(128);
        let p = pow(128, (s.len() - 1) as nat);
        let r = groups_value(s.drop_first());
        let g = (s[0] % 128) as nat;
        assert(g + 128 * r < 128 * p) by (nonlinear_arith)
            requires
                g < 128,
                r < p,
        ;
    }
}

proof fn lemma_pow128_9()
    ensures
        pow(128, 9) == 0x8000_0000_0000_0000,
{
    reveal_with_fuel(pow, 10);
}

/// Reads one byte, or `None` when the source has ended.
pub fn read_byte<R: Read>(reader: &mut R) -> (r: Result<Option<u8>, IpcError>)
    ensures
        old(reader).is_modeled() ==> {
            &&& final(reader).is_modeled()
            &&& r is Ok
            &&& (r matches Ok(Some(b)) ==> {
                &&& old(reader).unread().len() > 0
                &&& b == old(reader).unread()[0]
                &&& final(reader).unread() == old(reader).unread().drop_first()
            })
            &&& (r matches Ok(None) ==> {
                &&& old(reader).unread().len() == 0
                &&& final(reader).unread() == old(reader).unread()
            })
        },
{
    let mut one: Vec<u8> = vec![0u8];
    let n = reader.read(one.as_mut_slice())?;
    if n == 0 {
        Ok(None)
    } else {
        proof {
            if old(reader).is_modeled() {
                assert(reader.unread() =~= old(reader).unread().drop_first());
            }
        }
        Ok(Some(one[0]))
    }
}

/// Decodes the rest of a VLQ integer whose first byte, `first`, was already
/// taken from `reader`.
///
/// The contract is over `seq![first] + unread`, the whole sequence as it
/// arrived; read failures come out as `ReadVlqError`.
pub fn decode_vlq_after<R: Read>(reader: &mut R, first: u8) -> (r: Result<u64, IpcError>)
    ensures
        ({
            let s = seq![first] + old(reader).unread();
            old(reader).is_modeled() ==> {
                &&& final(reader).is_modeled()
                &&& r == match vlq_decoded(s) {
                    Ok((v, _)) => Ok::<u64, IpcError>(v),
                    Err(e) => Err(e),
                }
                &&& (r is Ok ==> final(reader).unread() == s.skip(vlq_decoded(s)->Ok_0.1 as int))
            }
        }),
{
    let ghost s = seq![first] + old(reader).unread();
    let ghost m = old(reader).is_modeled();
    let ghost mut seen: Seq<u8> = seq![first];
    let mut b: u8 = first;
    let mut i: usize = 0;
    let mut value: u64 = 0;
    let mut scale: u64 = 1;
    proof {
        vstd::arithmetic::power::lemma_pow0(128);
        assert(seen.take(0) =~= Seq::<u8>::empty());
        if m {
            assert(seen =~= s.take(1));
            assert(reader.unread() =~= s.skip(1));
        }
    }
    loop
        invariant
            s == seq![first] + old(reader).unread(),
            m == old(reader).is_modeled(),
            i < MAX_VLQ_GROUPS,
            seen.len() == i + 1,
            b == seen[i as int],
            forall|j: int| 0 <= j < i ==> seen[j] >= 128,
            value == groups_value(seen.take(i as int)),
            scale == pow(128, i as nat),
            m ==> {
                &&& reader.is_modeled()
                &&& i < s.len()
                &&& seen == s.take(i + 1)
                &&& reader.unread() == s.skip(i + 1)
            },
        decreases MAX_VLQ_GROUPS - i,
    {
        let g: u64 = (b % 128) as u64;
        proof {
            lemma_groups_value_bound(seen.take(i as int));
            lemma_groups_value_push(seen.take(i as int), b);
            assert(seen.take(i + 1) =~= seen.take(i as int).push(b));
            assert(seen.take(i + 1) =~= seen);
            lemma_pow128_9();
            vstd::arithmetic::power::lemma_pow_increases(128, i as nat, 9);
            vstd::arithmetic::power::lemma_pow_adds(128, i as nat, 1);
            vstd::arithmetic::power::lemma_pow1(128);
        }
        if i == MAX_VLQ_GROUPS - 1 && (b >= 128 || g > 1) {
            proof {
                if m {
                    assert forall|j: int| 0 <= j < i + 1 implies s[j] == seen[j] by {}
                    if b >= 128 {
                        assert forall|n: nat| n <= MAX_VLQ_GROUPS implies !terminated_at(s, n) by {
                            if terminated_at(s, n) {
                                assert(s[n - 1] >= 128);
                            }
                        }
                    } else {
                        assert(terminated_at(s, 10));
                        assert forall|n: nat| n <= MAX_VLQ_GROUPS && terminated_at(s, n) implies n
                            == 10 by {
                            lemma_terminated_unique(s, n, 10);
                        }
                        assert(s.take(10) == seen);
                        assert(g * scale >= 2 * 0x8000_0000_0000_0000) by (nonlinear_arith)
                            requires
                                g >= 2,
                                scale == 0x8000_0000_0000_0000,
                        ;
                    }
                }
            }
            return Err(IpcError::DecodeVlqOverflow);
        }
        proof {
            if i < MAX_VLQ_GROUPS - 1 {
                vstd::arithmetic::power::lemma_pow_increases(128, (i + 1) as nat, 9);
                assert(value + g * scale < 128 * scale) by (nonlinear_arith)
                    requires
                        g < 128,
                        value < scale,
                ;
            } else {
                assert(g <= 1);
                assert(g * scale <= scale) by (nonlinear_arith)
                    requires
                        g <= 1,
                ;
            }
        }
        value = value + g * scale;
        if b < 128 {
            proof {
                if m {
                    assert forall|j: int| 0 <= j < i + 1 implies s[j] == seen[j] by {}
                    assert(terminated_at(s, (i + 1) as nat));
                    assert forall|n: nat| n <= MAX_VLQ_GROUPS && terminated_at(s, n) implies n
                        == i + 1 by {
                        lemma_terminated_unique(s, n, (i + 1) as nat);
                    }
                }
            }
            return Ok(value);
        }
        i = i + 1;
        scale = scale * 128;
        match read_byte(reader) {
            Ok(Some(next)) => {
                proof {
                    let prev = seen;
                    seen = seen.push(next);
                    assert(seen.take(i as int) =~= prev);
                    if m {
                        assert(s.skip(i as int).drop_first() =~= s.skip(i + 1));
                        assert(seen =~= s.take(i + 1));
                    }
                }
                b = next;
            },
            Ok(None) => {
                proof {
                    if m {
                        assert(s.len() == i);
                        assert forall|n: nat| n <= MAX_VLQ_GROUPS implies !terminated_at(s, n) by {
                            if terminated_at(s, n) {
                                assert(s[n - 1] == seen[n - 1]);
                            }
                        }
                    }
                }
                return Err(IpcError::IncompleteVlqSeq);
            },
            Err(_) => {
                return Err(IpcError::ReadVlqError);
            },
        }
    }
}

/// Decodes one VLQ integer from the front of `reader`.
///
/// Fails with `IncompleteVlqSeq` when the source ends before a byte without
/// the continuation bit, with `DecodeVlqOverflow` when the value does not fit
/// in 64 bits, and with `ReadVlqError` when the source fails.
pub fn decode_vlq<R: Read>(reader: &mut R) -> (r: Result<u64, IpcError>)
    ensures
        ({
            let s = old(reader).unread();
            old(reader).is_modeled() ==> {
                &&& final(reader).is_modeled()
                &&& r == match vlq_decoded(s) {
                    Ok((v, _)) => Ok::<u64, IpcError>(v),
                    Err(e) => Err(e),
                }
                &&& (r is Ok ==> final(reader).unread() == s.skip(vlq_decoded(s)->Ok_0.1 as int))
            }
        }),
{
    match read_byte(reader) {
        Ok(Some(first)) => {
            proof {
                if old(reader).is_modeled() {
                    assert(seq![first] + reader.unread() =~= old(reader).unread());
                }
            }
            decode_vlq_after(reader, first)
        },
        Ok(None) => {
            proof {
                if old(reader).is_modeled() {
                    assert forall|n: nat| n <= MAX_VLQ_GROUPS implies !terminated_at(
                        old(reader).unread(),
                        n,
                    ) by {}
                }
            }
            Err(IpcError::IncompleteVlqSeq)
        },
        Err(_) => Err(IpcError::ReadVlqError),
    }
}

/// Decodes one VLQ integer from the front of `bytes` and says how many bytes
/// it took.
pub fn decode_vlq_prefix(bytes: &[u8]) -> (r: Result<(u64, usize), IpcError>)
    ensures
        r == match vlq_decoded(bytes@) {
            Ok((v, n)) => Ok::<(u64, usize), IpcError>((v, n as usize)),
            Err(e) => Err(e),
        },
{
    let mut src: &[u8] = bytes;
    let v = decode_vlq(&mut src)?;
    Ok((v, bytes.len() - src.len()))
}

/// Encodes `value` in its canonical form.
pub fn encode_vlq(value: u64) -> (r: Vec<u8>)
    ensures
        r@ == vlq_bytes(value as nat),
{
    let mut out: Vec<u8> = Vec::new();
    let mut v: u64 = value;
    while v >= 128
        invariant
            out@ + vlq_bytes(v as nat) == vlq_bytes(value as nat),
        decreases v,
    {
        let b: u8 = ((v % 128) + 128) as u8;
        let ghost before = out@;
        out.push(b);
        proof {
            assert(vlq_bytes(v as nat) == seq![b] + vlq_bytes((v / 128) as nat));
            assert(out@ + vlq_bytes((v / 128) as nat) =~= before + vlq_bytes(v as nat));
        }
        v = v / 128;
    }
    out.push(v as u8);
    proof {
        assert(vlq_bytes(v as nat) == seq![v as u8]);
    }
    out
}

} // verus!

verus! {

proof fn lemma_vlq_bytes_value(v: nat)
    ensures
        groups_value(vlq_bytes(v)) == v,
    decreases v,
{
    let e = vlq_bytes(v);
    if v < 128 {
        assert(e.drop_first() =~= Seq::<u8>::empty());
        assert(groups_value(Seq::<u8>::empty()) == 0);
    } else {
        lemma_vlq_bytes_value(v / 128);
        assert(e.drop_first() =~= vlq_bytes(v / 128));
        assert(e[0] % 128 == v % 128);
    }
}

proof fn lemma_vlq_bytes_terminated(v: nat)
    ensures
        vlq_bytes(v).len() >= 1,
        terminated_at(vlq_bytes(v), vlq_bytes(v).len()),
        vlq_bytes(v).len() > 1 ==> vlq_bytes(v).last() != 0,
    decreases v,
{
    let e = vlq_bytes(v);
    if v >= 128 {
        let tail = vlq_bytes(v / 128);
        lemma_vlq_bytes_terminated(v / 128);
        assert(e =~= seq![e[0]] + tail);
        assert forall|j: int| 0 <= j < e.len() - 1 implies e[j] >= 128 by {
            if j > 0 {
                assert(e[j] == tail[j - 1]);
            }
        }
        assert(e.last() == tail.last());
        if tail.len() == 1 {
            assert(tail[0] == (v / 128) as u8);
        }
    }
}

proof fn lemma_terminated_prefix(e: Seq<u8>, rest: Seq<u8>)
    requires
        terminated_at(e, e.len()),
    ensures
        terminated_at(e + rest, e.len()),
        (e + rest).take(e.len() as int) == e,
{
    assert((e + rest).take(e.len() as int) =~= e);
    assert forall|j: int| 0 <= j < e.len() implies (e + rest)[j] == e[j] by {}
}

proof fn lemma_vlq_bytes_len(v: nat, m: nat)
    requires
        m >= 1,
        v < pow(128, m),
    ensures
        vlq_bytes(v).len() <= m,
    decreases v,
{
    if v >= 128 {
        vstd::arithmetic::power::lemma_pow_adds(128, 1, (m - 1) as nat);
        vstd::arithmetic::power::lemma_pow1(128);
        let p = pow(128, (m - 1) as nat);
        if m == 1 {
            vstd::arithmetic::power::lemma_pow0(128);
        } else {
            assert(v / 128 < p) by (nonlinear_arith)
                requires
                    v < 128 * p,
            ;
            lemma_vlq_bytes_len(v / 128, (m - 1) as nat);
        }
    }
}

/// The encoding of `v` takes `k` bytes exactly when `v` needs `k` groups of
/// seven bits: `128^(k-1) <= v < 128^k`, or `k == 1` for the values below 128.
pub proof fn lemma_vlq_len(v: nat, k: nat)
    requires
        k >= 1,
        v < pow(128, k),
        k == 1 || pow(128, (k - 1) as nat) <= v,
    ensures
        vlq_bytes(v).len() == k,
    decreases k,
{
    vstd::arithmetic::power::lemma_pow1(128);
    if k == 1 {
        assert(v < 128);
    } else {
        vstd::arithmetic::power::lemma_pow_adds(128, 1, (k - 1) as nat);
        let p = pow(128, (k - 1) as nat);
        vstd::arithmetic::power::lemma_pow_positive(128, (k - 1) as nat);
        assert(v >= 128) by {
            vstd::arithmetic::power::lemma_pow_increases(128, 1, (k - 1) as nat);
        }
        assert(v / 128 < p) by (nonlinear_arith)
            requires
                v < 128 * p,
        ;
        if k > 2 {
            vstd::arithmetic::power::lemma_pow_adds(128, 1, (k - 2) as nat);
            let q = pow(128, (k - 2) as nat);
            assert(q <= v / 128) by (nonlinear_arith)
                requires
                    p == 128 * q,
                    p <= v,
            ;
        }
        lemma_vlq_len(v / 128, (k - 1) as nat);
    }
}

/// Encoding then decoding gives the value back, whatever bytes follow, and
/// consumes exactly the encoding. The encoding is canonical: at most ten
/// bytes, continuation bits on all but the last, and no zero final group
/// after the first.
pub proof fn lemma_vlq_round_trip(v: u64, rest: Seq<u8>)
    ensures
        vlq_decoded(vlq_bytes(v as nat) + rest) == Ok::<(u64, nat), IpcError>(
            (v, vlq_bytes(v as nat).len()),
        ),
        1 <= vlq_bytes(v as nat).len() <= MAX_VLQ_GROUPS,
        terminated_at(vlq_bytes(v as nat), vlq_bytes(v as nat).len()),
        vlq_bytes(v as nat).len() > 1 ==> vlq_bytes(v as nat).last() != 0,
{
    let e = vlq_bytes(v as nat);
    let s = e + rest;
    lemma_vlq_bytes_value(v as nat);
    lemma_vlq_bytes_terminated(v as nat);
    lemma_terminated_prefix(e, rest);
    reveal_with_fuel(pow, 11);
    lemma_vlq_bytes_len(v as nat, 10);
    assert forall|n: nat| n <= MAX_VLQ_GROUPS && terminated_at(s, n) implies n == e.len() by {
        lemma_terminated_unique(s, n, e.len());
    }
}

/// No two canonical encodings stand for one value: a decoded prefix whose
/// final group is non-zero (or which is a single byte) is the encoding of
/// its value.
pub proof fn lemma_vlq_canonical(s: Seq<u8>)
    requires
        vlq_decoded(s) is Ok,
        vlq_decoded(s)->Ok_0.1 == 1 || s[vlq_decoded(s)->Ok_0.1 - 1] != 0,
    ensures
        s.take(vlq_decoded(s)->Ok_0.1 as int) == vlq_bytes(vlq_decoded(s)->Ok_0.0 as nat),
{
    let n = choose|n: nat| n <= MAX_VLQ_GROUPS && terminated_at(s, n);
    let t = s.take(n as int);
    assert(terminated_at(t, n));
    lemma_canonical_groups(t);
}

proof fn lemma_canonical_groups(t: Seq<u8>)
    requires
        terminated_at(t, t.len()),
        t.len() == 1 || t.last() != 0,
    ensures
        t == vlq_bytes(groups_value(t)),
        t.last() != 0 ==> groups_value(t) >= pow(128, (t.len() - 1) as nat),
    decreases t.len(),
{
    vstd::arithmetic::power::lemma_pow0(128);
    if t.len() == 1 {
        assert(t.drop_first() =~= Seq::<u8>::empty());
        assert(groups_value(Seq::<u8>::empty()) == 0);
        assert(groups_value(t) == t[0]);
        assert(t =~= seq![t[0]]);
    } else {
        let u = t.drop_first();
        assert(u.last() == t.last());
        assert(terminated_at(u, u.len()));
        lemma_canonical_groups(u);
        vstd::arithmetic::power::lemma_pow_positive(128, (u.len() - 1) as nat);
        vstd::arithmetic::power::lemma_pow_adds(128, 1, (u.len() - 1) as nat);
        vstd::arithmetic::power::lemma_pow1(128);
        let g = groups_value(t);
        let r = groups_value(u);
        let h = (t[0] % 128) as nat;
        assert(g == h + 128 * r);
        assert(g / 128 == r && g % 128 == h) by (nonlinear_arith)
            requires
                g == h + 128 * r,
                h < 128,
        ;
        assert(r >= 1);
        assert(vlq_bytes(g) == seq![((g % 128) + 128) as u8] + vlq_bytes(g / 128));
        assert(t =~= seq![t[0]] + u);
    }
}

/// A sequence that needs more than ten groups, or whose tenth group holds
/// more than the one bit left of a `u64`, is rejected as an overflow.
pub proof fn lemma_vlq_overflow(s: Seq<u8>)
    requires
        s.len() >= MAX_VLQ_GROUPS,
        forall|j: int| 0 <= j < MAX_VLQ_GROUPS - 1 ==> s[j] >= 128,
        s[MAX_VLQ_GROUPS - 1] % 128 > 1 || s[MAX_VLQ_GROUPS - 1] >= 128,
    ensures
        vlq_decoded(s) == Err::<(u64, nat), IpcError>(IpcError::DecodeVlqOverflow),
{
    if s[9] >= 128 {
        assert forall|n: nat| n <= MAX_VLQ_GROUPS implies !terminated_at(s, n) by {
            if terminated_at(s, n) {
                assert(s[n - 1] >= 128);
            }
        }
    } else {
        assert(terminated_at(s, 10));
        assert forall|n: nat| n <= MAX_VLQ_GROUPS && terminated_at(s, n) implies n == 10 by {
            lemma_terminated_unique(s, n, 10);
        }
        lemma_groups_value_push(s.take(9), s[9]);
        assert(s.take(10) =~= s.take(9).push(s[9]));
        lemma_pow128_9();
        let g = (s[9] % 128) as nat;
        assert(g * pow(128, 9) >= 2 * 0x8000_0000_0000_0000) by (nonlinear_arith)
            requires
                g >= 2,
                pow(128, 9) == 0x8000_0000_0000_0000,
        ;
    }
}

} // verus!
