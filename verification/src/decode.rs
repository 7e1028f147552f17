//! Decoder for the trace file format: a flat concatenation of
//! length-delimited records with no outer envelope. Each record is framed as
//! `[length][length bytes]`, where the length is a base-128 variable-width
//! unsigned integer, and each record body is a sequence of tagged fields
//! (tag 1 timestamp, tag 2 code address, tag 3 event kind, tag 4 extra data).
//! Unknown tags are skipped for forward compatibility.

use vstd::prelude::*;

use crate::events::ProfileEvent;

verus! {

/// Why a trace buffer failed to decode.
#[derive(Clone, Copy, Debug, PartialEq, Eq, Structural)]
pub enum DecodeError {
    /// A record declared a length that exceeds the bytes remaining.
    UnexpectedEof,
    /// A length delimiter or a record body cannot be parsed per the tag
    /// scheme.
    Malformed,
}

/// 128 raised to the power `k`: the weight of the `k`-th byte of a
/// variable-width integer.
pub open spec fn pow128(k: nat) -> nat
    decreases k,
{
    if k == 0 {
        1
    } else {
        128 * pow128((k - 1) as nat)
    }
}

/// Position just past the variable-width integer that starts at `pos`, where
/// `k` bytes of it have already been accounted for, or `None` if the buffer
/// ends first, the encoding runs past ten bytes, or the tenth byte carries
/// more than the one bit that still fits in 64 bits.
pub open spec fn spec_varint_end(b: Seq<u8>, pos: int, k: nat) -> Option<int>
    decreases 10 - k,
{
    if k >= 10 || pos < 0 || pos >= b.len() {
        None
    } else if k == 9 {
        if b[pos] < 2 {
            Some(pos + 1)
        } else {
            None
        }
    } else if b[pos] < 128 {
        Some(pos + 1)
    } else {
        spec_varint_end(b, pos + 1, (k + 1) as nat)
    }
}

/// Value of the base-128 little-endian digits stored in `b[pos..end]`, each
/// byte contributing its low seven bits.
pub open spec fn spec_varint_value(b: Seq<u8>, pos: int, end: int) -> nat
    decreases end - pos,
{
    if pos < 0 || pos >= end || pos >= b.len() {
        0
    } else {
        (b[pos] % 128) as nat + 128 * spec_varint_value(b, pos + 1, end)
    }
}

proof fn lemma_pow128_increases(j: nat, k: nat)
    requires
        j <= k,
    ensures
        pow128(j) <= pow128(k),
    decreases k,
{
    if j < k {
        lemma_pow128_increases(j, (k - 1) as nat);
        lemma_pow128_pos((k - 1) as nat);
    }
}

proof fn lemma_pow128_pos(k: nat)
    ensures
        pow128(k) >= 1,
    decreases k,
{
    if k > 0 {
        lemma_pow128_pos((k - 1) as nat);
    }
}

proof fn lemma_varint_value_bound(b: Seq<u8>, pos: int, end: int)
    ensures
        spec_varint_value(b, pos, end) < pow128(if end - pos >= 0 {
            (end - pos) as nat
        } else {
            0
        }),
    decreases end - pos,
{
    lemma_pow128_pos(if end - pos >= 0 {
        (end - pos) as nat
    } else {
        0
    });
    if !(pos < 0 || pos >= end || pos >= b.len()) {
        lemma_varint_value_bound(b, pos + 1, end);
        lemma_pow128_pos((end - pos - 1) as nat);
    }
}

proof fn lemma_varint_value_snoc(b: Seq<u8>, pos: int, end: int)
    requires
        0 <= pos <= end < b.len(),
    ensures
        spec_varint_value(b, pos, end + 1) == spec_varint_value(b, pos, end) + ((b[end] % 128)
            as nat) * pow128((end - pos) as nat),
    decreases end - pos,
{
    if pos == end {
        assert(spec_varint_value(b, end + 1, end + 1) == 0);
        assert(spec_varint_value(b, pos, end + 1) == (b[pos] % 128) as nat + 128
            * spec_varint_value(b, pos + 1, end + 1));
        assert(spec_varint_value(b, pos, end) == 0);
        assert(pow128(0) == 1);
        assert(((b[end] % 128) as nat) * 1 == (b[end] % 128) as nat) by (nonlinear_arith);
    } else {
        lemma_varint_value_snoc(b, pos + 1, end);
        let c = (b[pos] % 128) as nat;
        let v = spec_varint_value(b, pos + 1, end);
        let d = (b[end] % 128) as nat;
        let p = pow128((end - pos - 1) as nat);
        assert(pow128((end - pos) as nat) == 128 * p);
        assert(spec_varint_value(b, pos + 1, end + 1) == v + d * p);
        assert(spec_varint_value(b, pos, end + 1) == c + 128 * (v + d * p));
        assert(spec_varint_value(b, pos, end) == c + 128 * v);
        assert(128 * (v + d * p) == 128 * v + d * (128 * p)) by (nonlinear_arith);
        assert(d * (128 * p) == d * pow128((end - pos) as nat));
        assert(spec_varint_value(b, pos, end + 1) == spec_varint_value(b, pos, end) + d * pow128(
            (end - pos) as nat,
        ));
    }
}

/// Reads the variable-width integer that starts at `pos`. Returns its value
/// and the position just past it, or `None` on a malformed encoding.
fn decode_varint(bytes: &Vec<u8>, pos: usize) -> (r: Option<(u64, usize)>)
    requires
        pos <= bytes.len(),
    ensures
        match r {
            Some(ve) => spec_varint_end(bytes@, pos as int, 0) == Some(ve.1 as int) && ve.0
                == spec_varint_value(bytes@, pos as int, ve.1 as int) && pos < ve.1 <= bytes.len(),
            None => spec_varint_end(bytes@, pos as int, 0) is None,
        },
{
    let ghost b = bytes@;
    let mut value: u64 = 0;
    let mut mult: u64 = 1;
    let mut k: usize = 0;
    proof {
        lemma_pow128_increases(0, 9);
        assert(pow128(9) == 0x8000_0000_0000_0000) by {
            reveal_with_fuel(pow128, 11);
        }
    }
    while k < 10
        invariant
            pos <= bytes.len(),
            k <= 10,
            mult == pow128(k as nat),
            value == spec_varint_value(b, pos as int, pos + k),
            value < mult,
            mult <= 0x8000_0000_0000_0000,
            pow128(9) == 0x8000_0000_0000_0000,
            b == bytes@,
            spec_varint_end(b, pos as int, 0) == spec_varint_end(b, pos + k, k as nat),
        decreases 10 - k,
    {
        if bytes.len() - pos <= k {
            return None;
        }
        let idx = pos + k;
        let byte = bytes[idx];
        proof {
            lemma_varint_value_snoc(b, pos as int, idx as int);
            lemma_varint_value_bound(b, pos as int, idx as int);
        }
        if k == 9 {
            if byte < 2 {
                value = value + (byte as u64) * mult;
                return Some((value, idx + 1));
            }
            return None;
        }
        let low = byte % 128;
        proof {
            lemma_pow128_increases((k + 1) as nat, 9);
            assert(value + (low as u64) * mult < 128 * mult) by (nonlinear_arith)
                requires
                    value < mult,
                    low < 128,
            ;
        }
        value = value + (low as u64) * mult;
        if byte < 128 {
            return Some((value, idx + 1));
        }
        mult = mult * 128;
        k = k + 1;
    }
    None
}

/// Decodes the tagged fields of one record body `b[pos..end]` into `acc`:
/// tag 1 is the timestamp, tag 2 the code address, tag 3 the event kind,
/// tag 4 the extra word; a later occurrence of a field replaces an earlier
/// one, and unknown tags are skipped by their wire type. `None` means the
/// body cannot be parsed.
pub open spec fn spec_decode_fields(b: Seq<u8>, pos: int, end: int, acc: ProfileEvent) -> Option<
    ProfileEvent,
>
    decreases end - pos,
{
    if pos == end {
        Some(acc)
    } else if pos > end || end > b.len() || pos < 0 {
        None
    } else {
        match spec_varint_end(b, pos, 0) {
            None => None,
            Some(e1) => if e1 > end || e1 <= pos {
                None
            } else {
                let key = spec_varint_value(b, pos, e1);
                let tag = key / 8;
                let wire = key % 8;
                if key > u32::MAX || tag == 0 {
                    None
                } else if wire == 0 {
                    match spec_varint_end(b, e1, 0) {
                        None => None,
                        Some(e2) => if e2 > end || e2 <= e1 {
                            None
                        } else {
                            let v = spec_varint_value(b, e1, e2) as u64;
                            let acc2 = if tag == 1 {
                                ProfileEvent { timestamp: Some(v as i64), ..acc }
                            } else if tag == 2 {
                                ProfileEvent { pc: Some(v as i32), ..acc }
                            } else if tag == 3 {
                                ProfileEvent { event_type: Some(v as i32), ..acc }
                            } else if tag == 4 {
                                ProfileEvent { extra_data: Some(v as i32), ..acc }
                            } else {
                                acc
                            };
                            spec_decode_fields(b, e2, end, acc2)
                        },
                    }
                } else if tag <= 4 {
                    // a known field with the wrong wire type cannot be
                    // parsed per the tag scheme
                    None
                } else if wire == 1 {
                    if end - e1 >= 8 {
                        spec_decode_fields(b, e1 + 8, end, acc)
                    } else {
                        None
                    }
                } else if wire == 2 {
                    match spec_varint_end(b, e1, 0) {
                        None => None,
                        Some(e2) => if e2 > end || e2 <= e1 {
                            None
                        } else {
                            let l = spec_varint_value(b, e1, e2);
                            if l > usize::MAX || l > end - e2 {
                                None
                            } else {
                                spec_decode_fields(b, e2 + l, end, acc)
                            }
                        },
                    }
                } else if wire == 5 {
                    if end - e1 >= 4 {
                        spec_decode_fields(b, e1 + 4, end, acc)
                    } else {
                        None
                    }
                } else {
                    None
                }
            },
        }
    }
}

/// The first record at `pos`: its decoded event and the position just past
/// it, or the error the trace fails with.
pub open spec fn spec_record_at(b: Seq<u8>, pos: int) -> Result<(ProfileEvent, int), DecodeError> {
    match spec_varint_end(b, pos, 0) {
        None => Err(DecodeError::Malformed),
        Some(e1) => {
            let len = spec_varint_value(b, pos, e1);
            if len > usize::MAX {
                Err(DecodeError::Malformed)
            } else if len > b.len() - e1 {
                Err(DecodeError::UnexpectedEof)
            } else {
                match spec_decode_fields(b, e1, e1 + len, ProfileEvent::spec_empty()) {
                    None => Err(DecodeError::Malformed),
                    Some(ev) => Ok((ev, e1 + len)),
                }
            }
        },
    }
}

/// All events of the buffer from `pos` on: records are read back to back and
/// end-of-input is reached exactly when the buffer is exhausted.
pub open spec fn spec_decode_events(b: Seq<u8>, pos: int) -> Result<Seq<ProfileEvent>, DecodeError>
    decreases b.len() - pos,
{
    if pos >= b.len() {
        Ok(Seq::empty())
    } else {
        match spec_record_at(b, pos) {
            Err(e) => Err(e),
            Ok((ev, p2)) => if p2 <= pos || p2 > b.len() {
                Err(DecodeError::Malformed)
            } else {
                match spec_decode_events(b, p2) {
                    Err(e) => Err(e),
                    Ok(rest) => Ok(seq![ev] + rest),
                }
            },
        }
    }
}

proof fn lemma_varint_end_bounds(b: Seq<u8>, pos: int, k: nat)
    ensures
        match spec_varint_end(b, pos, k) {
            Some(e) => pos < e <= b.len(),
            None => true,
        },
    decreases 10 - k,
{
    if !(k >= 10 || pos < 0 || pos >= b.len()) && k != 9 && b[pos] >= 128 {
        lemma_varint_end_bounds(b, pos + 1, (k + 1) as nat);
    }
}

/// A record that decodes never ends at or before where it started, and never
/// past the buffer.
pub proof fn lemma_record_at_advances(b: Seq<u8>, pos: int)
    requires
        0 <= pos <= b.len(),
    ensures
        match spec_record_at(b, pos) {
            Ok((ev, p2)) => pos < p2 <= b.len(),
            Err(_) => true,
        },
{
    lemma_varint_end_bounds(b, pos, 0);
}

/// Decodes the tagged fields of the record body `bytes[pos..end]`.
fn decode_fields(bytes: &Vec<u8>, pos: usize, end: usize) -> (r: Option<ProfileEvent>)
    requires
        pos <= end <= bytes.len(),
    ensures
        r == spec_decode_fields(bytes@, pos as int, end as int, ProfileEvent::spec_empty()),
{
    let ghost b = bytes@;
    let mut acc = ProfileEvent::empty();
    let mut cur = pos;
    while cur < end
        invariant
            pos <= cur <= end <= bytes.len(),
            b == bytes@,
            spec_decode_fields(b, pos as int, end as int, ProfileEvent::spec_empty())
                == spec_decode_fields(b, cur as int, end as int, acc),
        decreases end - cur,
    {
        let (key, e1) = match decode_varint(bytes, cur) {
            Some(ve) => ve,
            None => {
                return None;
            },
        };
        if e1 > end {
            return None;
        }
        let tag = key / 8;
        let wire = key % 8;
        if key > u32::MAX as u64 || tag == 0 {
            return None;
        }
        if wire == 0 {
            let (v, e2) = match decode_varint(bytes, e1) {
                Some(ve) => ve,
                None => {
                    return None;
                },
            };
            if e2 > end {
                return None;
            }
            if tag == 1 {
                acc.timestamp = Some(#[verifier::truncate] (v as i64));
            } else if tag == 2 {
                acc.pc = Some(#[verifier::truncate] (v as i32));
            } else if tag == 3 {
                acc.event_type = Some(#[verifier::truncate] (v as i32));
            } else if tag == 4 {
                acc.extra_data = Some(#[verifier::truncate] (v as i32));
            }
            cur = e2;
        } else if tag <= 4 {
            return None;
        } else if wire == 1 {
            if end - e1 < 8 {
                return None;
            }
            cur = e1 + 8;
        } else if wire == 2 {
            let (l, e2) = match decode_varint(bytes, e1) {
                Some(ve) => ve,
                None => {
                    return None;
                },
            };
            if e2 > end {
                return None;
            }
            if l > (end - e2) as u64 {
                return None;
            }
            cur = e2 + (l as usize);
        } else if wire == 5 {
            if end - e1 < 4 {
                return None;
            }
            cur = e1 + 4;
        } else {
            return None;
        }
    }
    Some(acc)
}

/// Decodes the record that starts at `pos`: the framed length, then the
/// record body. On success the returned position lies exactly past the
/// consumed record.
pub fn decode_record(bytes: &Vec<u8>, pos: usize) -> (r: Result<(ProfileEvent, usize), DecodeError>)
    requires
        pos <= bytes.len(),
    ensures
        match r {
            Ok(evp) => spec_record_at(bytes@, pos as int) == Ok::<_, DecodeError>(
                (evp.0, evp.1 as int),
            ) && pos < evp.1 <= bytes.len(),
            Err(e) => spec_record_at(bytes@, pos as int) == Err::<(ProfileEvent, int), _>(e),
        },
{
    let (len, e1) = match decode_varint(bytes, pos) {
        Some(ve) => ve,
        None => {
            return Err(DecodeError::Malformed);
        },
    };
    if len > usize::MAX as u64 {
        return Err(DecodeError::Malformed);
    }
    let len = len as usize;
    if len > bytes.len() - e1 {
        return Err(DecodeError::UnexpectedEof);
    }
    match decode_fields(bytes, e1, e1 + len) {
        None => Err(DecodeError::Malformed),
        Some(ev) => Ok((ev, e1 + len)),
    }
}

/// Decodes every record of the buffer, in order. Fails with
/// [`DecodeError::UnexpectedEof`] when a record declares a length that
/// exceeds the bytes remaining, and with [`DecodeError::Malformed`] when a
/// length delimiter or a record body cannot be parsed.
pub fn decode_events(bytes: &Vec<u8>) -> (r: Result<Vec<ProfileEvent>, DecodeError>)
    ensures
        match r {
            Ok(evs) => spec_decode_events(bytes@, 0) == Ok::<_, DecodeError>(evs@),
            Err(e) => spec_decode_events(bytes@, 0) == Err::<Seq<ProfileEvent>, _>(e),
        },
{
    let ghost b = bytes@;
    let mut out: Vec<ProfileEvent> = Vec::new();
    let mut pos: usize = 0;
    while pos < bytes.len()
        invariant
            pos <= bytes.len(),
            b == bytes@,
            spec_decode_events(b, 0) == (match spec_decode_events(b, pos as int) {
                Ok(tail) => Ok::<Seq<ProfileEvent>, DecodeError>(out@ + tail),
                Err(e) => Err::<Seq<ProfileEvent>, DecodeError>(e),
            }),
        decreases bytes.len() - pos,
    {
        match decode_record(bytes, pos) {
            Err(e) => {
                return Err(e);
            },
            Ok((ev, p2)) => {
                proof {
                    lemma_record_at_advances(b, pos as int);
                    if spec_decode_events(b, p2 as int) is Ok {
                        let t2 = spec_decode_events(b, p2 as int)->Ok_0;
                        assert(out@ + (seq![ev] + t2) =~= out@.push(ev) + t2);
                    }
                }
                out.push(ev);
                pos = p2;
            },
        }
    }
    proof {
        assert(out@ + Seq::<ProfileEvent>::empty() =~= out@);
    }
    Ok(out)
}

} // verus!
