use vstd::prelude::*;

use crate::entry::Entry;
use crate::error::Error;
use crate::index::{lemma_map_of_contains, lemma_remove_key_id, unique_keys, Bindings, Index};
use vstd::arithmetic::div_mod::{
    lemma_div_denominator, lemma_div_is_ordered, lemma_div_multiples_vanish,
    lemma_div_pos_is_pos, lemma_fundamental_div_mod, lemma_fundamental_div_mod_converse,
    lemma_mod_pos_bound,
};
use vstd::string::StrSliceExecFns;
use vstd::utf8::{decode_utf8, encode_utf8, encode_utf8_decode_utf8, encode_utf8_valid_utf8, valid_utf8};

verus! {

/// Powers of ten.
pub open spec fn pow10(e: int) -> int
    decreases e,
{
    if e <= 0 {
        1
    } else {
        10 * pow10(e - 1)
    }
}

pub proof fn lemma_pow10_pos(e: int)
    ensures
        pow10(e) >= 1,
    decreases e,
{
    if e > 0 {
        lemma_pow10_pos(e - 1);
    }
}

proof fn lemma_pow10_vals()
    ensures
        pow10(19) == 10_000_000_000_000_000_000,
        pow10(20) == 100_000_000_000_000_000_000,
{
    reveal_with_fuel(pow10, 22);
}

/// The number a string of decimal digit bytes stands for.
pub open spec fn dec_val(s: Seq<u8>) -> int
    decreases s.len(),
{
    if s.len() == 0 {
        0
    } else {
        dec_val(s.drop_last()) * 10 + (s.last() - 48)
    }
}

/// Every byte is an ASCII decimal digit.
pub open spec fn is_digits(s: Seq<u8>) -> bool {
    forall|i: int| 0 <= i < s.len() ==> 48 <= #[trigger] s[i] <= 57
}

/// `n` written as exactly 20 decimal digit bytes, zero padded.
pub open spec fn dec20(n: int) -> Seq<u8> {
    Seq::new(20, |i: int| (48 + (n / pow10(19 - i)) % 10) as u8)
}

/// What a 20-byte number field means: defined exactly for 20 digit bytes
/// whose value fits a `u64`.
pub open spec fn parse_num(s: Seq<u8>) -> Option<u64> {
    if s.len() == 20 && is_digits(s) && dec_val(s) <= u64::MAX {
        Some(dec_val(s) as u64)
    } else {
        None
    }
}

pub proof fn lemma_dec_val_nonneg(s: Seq<u8>)
    requires
        is_digits(s),
    ensures
        dec_val(s) >= 0,
    decreases s.len(),
{
    if s.len() > 0 {
        assert(is_digits(s.drop_last()));
        lemma_dec_val_nonneg(s.drop_last());
    }
}

/// A digit string is worth at least any of its prefixes.
pub proof fn lemma_dec_val_take(s: Seq<u8>, i: int)
    requires
        is_digits(s),
        0 <= i <= s.len(),
    ensures
        dec_val(s.take(i)) <= dec_val(s),
    decreases s.len(),
{
    if i == s.len() {
        assert(s.take(i) =~= s);
    } else {
        let m = s.drop_last();
        assert(is_digits(m));
        assert(s.take(i) =~= m.take(i));
        lemma_dec_val_take(m, i);
        lemma_dec_val_nonneg(m);
    }
}

/// The zero-padded digits of `n < pow10(m)` are digits and read back as `n`.
proof fn lemma_dec_val_digits(n: int, m: int)
    requires
        0 <= m,
        0 <= n < pow10(m),
    ensures
        is_digits(Seq::new(m as nat, |i: int| (48 + (n / pow10(m - 1 - i)) % 10) as u8)),
        dec_val(Seq::new(m as nat, |i: int| (48 + (n / pow10(m - 1 - i)) % 10) as u8)) == n,
    decreases m,
{
    let s = Seq::new(m as nat, |i: int| (48 + (n / pow10(m - 1 - i)) % 10) as u8);
    assert forall|i: int| 0 <= i < m implies 48 <= #[trigger] s[i] <= 57 by {
        lemma_pow10_pos(m - 1 - i);
        lemma_div_pos_is_pos(n, pow10(m - 1 - i));
        lemma_mod_pos_bound(n / pow10(m - 1 - i), 10);
    }
    if m == 0 {
        assert(pow10(0) == 1);
    } else {
        let q = n / 10;
        let p = pow10(m - 1);
        lemma_pow10_pos(m - 1);
        assert(pow10(m) == 10 * p);
        // q < pow10(m - 1)
        lemma_fundamental_div_mod_converse(10 * p - 1, 10, p - 1, 9);
        lemma_div_is_ordered(n, 10 * p - 1, 10);
        assert(q <= p - 1);
        lemma_div_pos_is_pos(n, 10);
        lemma_dec_val_digits(q, m - 1);
        let s2 = Seq::new((m - 1) as nat, |i: int| (48 + (q / pow10(m - 2 - i)) % 10) as u8);
        assert forall|i: int| 0 <= i < m - 1 implies s[i] == s2[i] by {
            lemma_pow10_pos(m - 2 - i);
            lemma_div_denominator(n, 10, pow10(m - 2 - i));
            assert(pow10(m - 1 - i) == 10 * pow10(m - 2 - i));
            assert(n / pow10(m - 1 - i) == q / pow10(m - 2 - i));
        }
        assert(s.drop_last() =~= s2);
        assert(pow10(m - 1 - (m - 1)) == 1);
        assert(n / 1 == n);
        assert(s.last() == (48 + n % 10) as u8);
        lemma_mod_pos_bound(n, 10);
        lemma_fundamental_div_mod(n, 10);
        assert(dec_val(s) == dec_val(s2) * 10 + (s.last() - 48));
        assert(dec_val(s) == q * 10 + n % 10);
    }
}

/// A `u64` survives the round trip through its 20-digit form.
pub proof fn lemma_parse_dec20(n: int)
    requires
        0 <= n <= u64::MAX,
    ensures
        is_digits(dec20(n)),
        dec_val(dec20(n)) == n,
        parse_num(dec20(n)) == Some(n as u64),
{
    lemma_pow10_vals();
    lemma_dec_val_digits(n, 20);
    assert(dec20(n) =~= Seq::new(20, |i: int| (48 + (n / pow10(20 - 1 - i)) % 10) as u8));
}

/// Read the 20-digit decimal field at `b[start..start + 20]`.
pub fn parse_num_at(b: &[u8], start: usize) -> (r: Option<u64>)
    requires
        start + 20 <= b@.len(),
    ensures
        r == parse_num(b@.subrange(start as int, start + 20)),
{
    let ghost s = b@.subrange(start as int, start + 20);
    let total = b.len();
    let mut acc: u64 = 0;
    let mut j: usize = 0;
    while j < 20
        invariant
            0 <= j <= 20,
            total == b@.len(),
            start + 20 <= b@.len(),
            s == b@.subrange(start as int, start + 20),
            is_digits(s.take(j as int)),
            acc == dec_val(s.take(j as int)),
        decreases 20 - j,
    {
        let c = b[start + j];
        proof {
            assert(c == s[j as int]);
        }
        if c < 48 || c > 57 {
            proof {
                assert(!is_digits(s));
            }
            return None;
        }
        let d = (c - 48) as u64;
        let wide: u128 = acc as u128 * 10 + d as u128;
        proof {
            assert(s.take(j + 1).drop_last() =~= s.take(j as int));
            assert(s.take(j + 1).last() == c);
            assert(is_digits(s.take(j + 1)));
            assert(dec_val(s.take(j + 1)) == wide);
        }
        if wide > u64::MAX as u128 {
            proof {
                if is_digits(s) && dec_val(s) <= u64::MAX {
                    lemma_dec_val_take(s, j + 1);
                }
            }
            return None;
        }
        acc = wide as u64;
        j += 1;
    }
    proof {
        assert(s.take(20) =~= s);
    }
    Some(acc)
}

/// Append `n` as exactly 20 decimal digit bytes, zero padded.
pub fn push_dec20(out: &mut Vec<u8>, n: u64)
    ensures
        final(out)@ == old(out)@ + dec20(n as int),
{
    let ghost base = old(out)@;
    proof {
        lemma_pow10_vals();
    }
    let mut p: u64 = 10_000_000_000_000_000_000u64;
    let mut i: usize = 0;
    while i < 20
        invariant
            0 <= i <= 20,
            i < 20 ==> p as int == pow10(19 - i),
            out@ == base + dec20(n as int).take(i as int),
        decreases 20 - i,
    {
        proof {
            lemma_pow10_pos(19 - i);
            lemma_div_pos_is_pos(n as int, p as int);
            lemma_mod_pos_bound((n / p) as int, 10);
        }
        let d = (n / p) % 10;
        out.push(48 + d as u8);
        proof {
            assert(dec20(n as int)[i as int] == (48 + ((n as int) / pow10(19 - i)) % 10) as u8);
            assert(base + dec20(n as int).take(i + 1) =~= (base + dec20(n as int).take(
                i as int,
            )).push(((48 + d) as u8)));
        }
        if i < 19 {
            proof {
                assert(pow10(19 - i) == 10 * pow10(18 - i));
                lemma_pow10_pos(18 - i);
                lemma_div_multiples_vanish(pow10(18 - i), 10);
            }
            p = p / 10;
        }
        i += 1;
    }
    proof {
        assert(dec20(n as int).take(20) =~= dec20(n as int));
    }
}

/// Text never outgrows four bytes per character; what lets a caller
/// bound a value's appended size.
pub proof fn lemma_encode_utf8_len(chars: Seq<char>)
    ensures
        encode_utf8(chars).len() <= 4 * chars.len(),
    decreases chars.len(),
{
    if chars.len() > 0 {
        lemma_encode_utf8_len(chars.drop_first());
    }
}

/// One record of the snapshot text: three 20-digit numbers — key byte
/// length, log position, value byte length — separated by a space, then a
/// line break, the key's bytes verbatim, and a closing line break.
pub open spec fn enc_record(k: Seq<char>, e: Entry) -> Seq<u8> {
    dec20(encode_utf8(k).len() as int) + seq![32u8] + dec20(e.position as int) + seq![32u8]
        + dec20(e.offset as int) + seq![10u8] + encode_utf8(k) + seq![10u8]
}

/// All records, in binding order.
pub open spec fn enc_records(l: Bindings) -> Seq<u8>
    decreases l.len(),
{
    if l.len() == 0 {
        Seq::<u8>::empty()
    } else {
        enc_records(l.drop_last()) + enc_record(l.last().0, l.last().1)
    }
}

/// The snapshot text: a count line, then one record per binding. An empty
/// index is the empty file. The records stand in the index's binding
/// order, which the store keeps equal to position order in the log: that
/// order is part of the format, and reopening demands it back.
pub open spec fn enc_snapshot(l: Bindings) -> Seq<u8> {
    if l.len() == 0 {
        Seq::<u8>::empty()
    } else {
        dec20(l.len() as int) + seq![10u8] + enc_records(l)
    }
}

/// Every key's byte form fits the snapshot's number fields.
pub open spec fn encodable(l: Bindings) -> bool {
    l.len() <= u64::MAX && forall|i: int|
        0 <= i < l.len() ==> (#[trigger] encode_utf8(l[i].0)).len() <= u64::MAX
}

/// What a run of exactly `n` records means, with nothing allowed to
/// follow. `None` stands for corruption.
pub open spec fn parse_records(b: Seq<u8>, n: nat) -> Option<Bindings>
    decreases n,
{
    if n == 0 {
        if b.len() == 0 {
            Some(Seq::<(Seq<char>, Entry)>::empty())
        } else {
            None
        }
    } else if b.len() < 63 {
        None
    } else {
        let f_klen = parse_num(b.subrange(0, 20));
        let f_pos = parse_num(b.subrange(21, 41));
        let f_off = parse_num(b.subrange(42, 62));
        if b[20] != 32 || b[41] != 32 || b[62] != 10 {
            None
        } else if f_klen is None || f_pos is None || f_off is None {
            None
        } else if f_off.unwrap() > usize::MAX as u64 {
            None
        } else {
            let klen = f_klen.unwrap() as int;
            if b.len() < 64 + klen {
                None
            } else if b[63 + klen] != 10 {
                None
            } else {
                let kb = b.subrange(63, 63 + klen);
                if !valid_utf8(kb) {
                    None
                } else {
                    match parse_records(b.skip(64 + klen), (n - 1) as nat) {
                        Some(rest) => Some(
                            seq![
                                (
                                    decode_utf8(kb),
                                    Entry { position: f_pos.unwrap(), offset: f_off.unwrap() as usize },
                                ),
                            ] + rest,
                        ),
                        None => None,
                    }
                }
            }
        }
    }
}

/// What a whole snapshot file means. `None` stands for corruption.
pub open spec fn parse_snapshot(b: Seq<u8>) -> Option<Bindings> {
    if b.len() == 0 {
        Some(Seq::<(Seq<char>, Entry)>::empty())
    } else if b.len() < 21 || b[20] != 10 {
        None
    } else {
        match parse_num(b.subrange(0, 20)) {
            Some(n) => parse_records(b.skip(21), n as nat),
            None => None,
        }
    }
}

/// Reading one encoded record off the front of a record run peels off
/// exactly its binding.
proof fn lemma_enc_record_parse(k: Seq<char>, e: Entry, rest: Seq<u8>, n: nat)
    requires
        encode_utf8(k).len() <= u64::MAX,
        n >= 1,
    ensures
        parse_records(enc_record(k, e) + rest, n) == (match parse_records(rest, (n - 1) as nat) {
            Some(tail) => Some(seq![(k, e)] + tail),
            None => None,
        }),
{
    let kb = encode_utf8(k);
    let klen = kb.len() as int;
    let cc = enc_record(k, e) + rest;
    lemma_parse_dec20(klen);
    lemma_parse_dec20(e.position as int);
    lemma_parse_dec20(e.offset as int);
    assert(cc.subrange(0, 20) =~= dec20(klen));
    assert(cc[20] == 32);
    assert(cc.subrange(21, 41) =~= dec20(e.position as int));
    assert(cc[41] == 32);
    assert(cc.subrange(42, 62) =~= dec20(e.offset as int));
    assert(cc[62] == 10);
    assert(cc.subrange(63, 63 + klen) =~= kb);
    assert(cc[63 + klen] == 10);
    assert(cc.skip(64 + klen) =~= rest);
    encode_utf8_valid_utf8(k);
    encode_utf8_decode_utf8(k);
    assert(cc.len() >= 64 + klen);
    if parse_records(rest, (n - 1) as nat) is Some {
        let tail = parse_records(rest, (n - 1) as nat).unwrap();
        assert(parse_records(cc, n) == Some(seq![(k, e)] + tail));
    }
}

/// A record run can also be unfolded from the front.
proof fn lemma_enc_records_first(l: Bindings)
    requires
        l.len() > 0,
    ensures
        enc_records(l) == enc_record(l[0].0, l[0].1) + enc_records(l.drop_first()),
    decreases l.len(),
{
    if l.len() == 1 {
        assert(l.drop_last() =~= Seq::<(Seq<char>, Entry)>::empty());
        assert(l.drop_first() =~= Seq::<(Seq<char>, Entry)>::empty());
        assert(l.last() == l[0]);
        assert(enc_records(l) =~= enc_record(l[0].0, l[0].1) + enc_records(l.drop_first()));
    } else {
        let m = l.drop_last();
        lemma_enc_records_first(m);
        assert(m[0] == l[0]);
        let lf = l.drop_first();
        assert(lf.drop_last() =~= m.drop_first());
        assert(lf.last() == l.last());
        assert(enc_records(lf) == enc_records(m.drop_first()) + enc_record(l.last().0, l.last().1));
        assert(enc_records(l) == enc_records(m) + enc_record(l.last().0, l.last().1));
        assert(enc_records(l) =~= enc_record(l[0].0, l[0].1) + enc_records(lf));
    }
}

/// A record run reads back as exactly the bindings it was written from.
pub proof fn lemma_parse_enc_records(l: Bindings)
    requires
        encodable(l),
    ensures
        parse_records(enc_records(l), l.len() as nat) == Some(l),
    decreases l.len(),
{
    if l.len() > 0 {
        let lf = l.drop_first();
        assert(encodable(lf)) by {
            assert forall|i: int|
                0 <= i < lf.len() implies (#[trigger] encode_utf8(lf[i].0)).len() <= u64::MAX by {
                assert(lf[i] == l[i + 1]);
            }
        }
        lemma_parse_enc_records(lf);
        lemma_enc_records_first(l);
        assert(encode_utf8(l[0].0).len() <= u64::MAX);
        lemma_enc_record_parse(l[0].0, l[0].1, enc_records(lf), l.len() as nat);
        assert((l[0].0, l[0].1) == l[0]);
        assert(seq![l[0]] + lf =~= l);
    }
}

/// The snapshot codec is lossless: what `enc_snapshot` writes,
/// `parse_snapshot` reads back unchanged.
pub proof fn lemma_parse_enc_snapshot(l: Bindings)
    requires
        encodable(l),
    ensures
        parse_snapshot(enc_snapshot(l)) == Some(l),
{
    if l.len() > 0 {
        let cc = enc_snapshot(l);
        lemma_parse_dec20(l.len() as int);
        lemma_parse_enc_records(l);
        assert(cc.len() == 21 + enc_records(l).len());
        assert(cc.subrange(0, 20) =~= dec20(l.len() as int));
        assert(cc[20] == 10);
        assert(cc.skip(21) =~= enc_records(l));
    }
}

/// Relies on `String::from_utf8` (std): it succeeds exactly on valid
/// UTF-8 input, and then returns the string those bytes encode.
#[verifier::external_body]
pub(crate) fn bytes_to_string(bytes: Vec<u8>) -> (r: Option<String>)
    ensures
        r is Some <==> valid_utf8(bytes@),
        r matches Some(s) ==> s@ == decode_utf8(bytes@),
{
    match String::from_utf8(bytes) {
        Ok(s) => Some(s),
        Err(_) => None,
    }
}

/// Copy the byte range `[start, start + len)` out of `b`.
fn copy_range(b: &[u8], start: usize, len: usize) -> (v: Vec<u8>)
    requires
        start + len <= b@.len(),
    ensures
        v@ == b@.subrange(start as int, start + len),
{
    let total = b.len();
    let end = start + len;
    let mut v: Vec<u8> = Vec::new();
    let mut j: usize = start;
    while j < end
        invariant
            start <= j <= end,
            end == start + len,
            end <= total,
            total == b@.len(),
            v@ == b@.subrange(start as int, j as int),
        decreases end - j,
    {
        v.push(b[j]);
        j += 1;
        proof {
            assert(v@ =~= b@.subrange(start as int, j as int));
        }
    }
    v
}

/// Serialize the full index as its snapshot text.
pub fn encode_index(idx: &Index) -> (r: Vec<u8>)
    ensures
        r@ == enc_snapshot(idx.model()),
        encodable(idx.model()),
{
    let n = idx.pairs.len();
    let mut out: Vec<u8> = Vec::new();
    if n == 0 {
        return out;
    }
    push_dec20(&mut out, n as u64);
    out.push(10);
    let mut i: usize = 0;
    while i < n
        invariant
            0 <= i <= n,
            n == idx.pairs@.len(),
            n >= 1,
            out@ == dec20(n as int) + seq![10u8] + enc_records(idx.model().take(i as int)),
            forall|j: int|
                0 <= j < i ==> (#[trigger] encode_utf8(idx.model()[j].0)).len() <= u64::MAX,
        decreases n - i,
    {
        let p = &idx.pairs[i];
        let kb = p.0.as_str().as_bytes_vec();
        push_dec20(&mut out, kb.len() as u64);
        out.push(32);
        push_dec20(&mut out, p.1.position);
        out.push(32);
        push_dec20(&mut out, p.1.offset as u64);
        out.push(10);
        out.extend_from_slice(kb.as_slice());
        out.push(10);
        proof {
            assert(kb@ == encode_utf8(idx.model()[i as int].0));
            assert(idx.model().take(i + 1).drop_last() =~= idx.model().take(i as int));
            assert(idx.model().take(i + 1).last() == idx.model()[i as int]);
            assert(out@ =~= dec20(n as int) + seq![10u8] + enc_records(idx.model().take(i + 1)));
        }
        i += 1;
    }
    proof {
        assert(idx.model().take(n as int) =~= idx.model());
    }
    out
}

/// Rebuild an index from snapshot bytes. Fails with
/// [`Error::CorruptIndex`] exactly when the bytes are not a well-formed
/// snapshot, or bind some key twice.
pub fn decode_index(b: &[u8]) -> (r: Result<Index, Error>)
    ensures
        r is Ok <==> (parse_snapshot(b@) matches Some(l) && unique_keys(l)),
        r matches Ok(idx) ==> parse_snapshot(b@) == Some(idx.model()) && idx.wf(),
{
    let total = b.len();
    let mut idx = Index::new();
    if total == 0 {
        return Ok(idx);
    }
    if total < 21 {
        return Err(Error::CorruptIndex);
    }
    let count = match parse_num_at(b, 0) {
        Some(c) => c,
        None => {
            return Err(Error::CorruptIndex);
        },
    };
    if b[20] != 10 {
        return Err(Error::CorruptIndex);
    }
    let ghost body = b@.skip(21);
    let mut cursor: usize = 21;
    let mut i: u64 = 0;
    proof {
        assert(b@.skip(cursor as int) =~= body);
    }
    while i < count
        invariant
            0 <= i <= count,
            21 <= cursor <= total,
            total == b@.len(),
            parse_snapshot(b@) == parse_records(body, count as nat),
            idx.wf(),
            (match parse_records(b@.skip(cursor as int), (count - i) as nat) {
                Some(rest) => parse_records(body, count as nat) == Some(idx.model() + rest),
                None => parse_records(body, count as nat) is None,
            }),
        decreases count - i,
    {
        let ghost here = b@.skip(cursor as int);
        let ghost n_left = (count - i) as nat;
        let rem = total - cursor;
        if rem < 64 {
            return Err(Error::CorruptIndex);
        }
        let f_klen = parse_num_at(b, cursor);
        let f_pos = parse_num_at(b, cursor + 21);
        let f_off = parse_num_at(b, cursor + 42);
        proof {
            assert(here.subrange(0, 20) =~= b@.subrange(cursor as int, cursor + 20));
            assert(here.subrange(21, 41) =~= b@.subrange(cursor + 21, cursor + 41));
            assert(here.subrange(42, 62) =~= b@.subrange(cursor + 42, cursor + 62));
            assert(here[20] == b@[cursor + 20]);
            assert(here[41] == b@[cursor + 41]);
            assert(here[62] == b@[cursor + 62]);
        }
        if b[cursor + 20] != 32 || b[cursor + 41] != 32 || b[cursor + 62] != 10 {
            return Err(Error::CorruptIndex);
        }
        let klen = match f_klen {
            Some(v) => v,
            None => {
                return Err(Error::CorruptIndex);
            },
        };
        let pos = match f_pos {
            Some(v) => v,
            None => {
                return Err(Error::CorruptIndex);
            },
        };
        let off = match f_off {
            Some(v) => v,
            None => {
                return Err(Error::CorruptIndex);
            },
        };
        if off > usize::MAX as u64 {
            return Err(Error::CorruptIndex);
        }
        if klen > (rem - 64) as u64 {
            return Err(Error::CorruptIndex);
        }
        let klen_us = klen as usize;
        proof {
            assert(here.len() == total - cursor);
            assert(here.len() >= 64 + klen);
            assert(here[63 + klen as int] == b@[cursor + 63 + klen as int]);
        }
        if b[cursor + 63 + klen_us] != 10 {
            return Err(Error::CorruptIndex);
        }
        let kb = copy_range(b, cursor + 63, klen_us);
        proof {
            assert(kb@ =~= here.subrange(63, 63 + klen as int));
        }
        let key = match bytes_to_string(kb) {
            Some(s) => s,
            None => {
                return Err(Error::CorruptIndex);
            },
        };
        let ghost new_binding = (key@, Entry { position: pos, offset: off as usize });
        let ghost after = here.skip(64 + klen as int);
        proof {
            assert(after =~= b@.skip(cursor + 64 + klen as int));
            assert(parse_records(here, n_left) == (match parse_records(after, (n_left - 1) as nat) {
                Some(rest) => Some(seq![new_binding] + rest),
                None => None,
            }));
        }
        if idx.get(&key).is_some() {
            proof {
                if parse_records(after, (n_left - 1) as nat) is Some {
                    let rest = parse_records(after, (n_left - 1) as nat).unwrap();
                    let whole = idx.model() + seq![new_binding] + rest;
                    lemma_map_of_contains(idx.model(), key@);
                    let j = choose|j: int| 0 <= j < idx.model().len() && idx.model()[j].0 == key@;
                    assert(parse_records(body, count as nat) == Some(whole)) by {
                        assert(idx.model() + (seq![new_binding] + rest) =~= whole);
                    }
                    assert(whole[j].0 == whole[idx.model().len() as int].0);
                    assert(!unique_keys(whole));
                }
            }
            return Err(Error::CorruptIndex);
        }
        proof {
            lemma_map_of_contains(idx.model(), key@);
            lemma_remove_key_id(idx.model(), key@);
        }
        let ghost before_model = idx.model();
        idx.put(key, Entry::new(pos, off as usize));
        proof {
            assert(idx.model() == before_model.push(new_binding));
        }
        cursor = cursor + 64 + klen_us;
        i = i + 1;
        proof {
            if parse_records(b@.skip(cursor as int), (count - i) as nat) is Some {
                let rest = parse_records(b@.skip(cursor as int), (count - i) as nat).unwrap();
                assert(before_model + (seq![new_binding] + rest) =~= idx.model() + rest);
            }
        }
    }
    if cursor < total {
        proof {
            assert(b@.skip(cursor as int).len() > 0);
        }
        return Err(Error::CorruptIndex);
    }
    proof {
        assert(b@.skip(cursor as int).len() == 0);
        assert(idx.model() + parse_records(b@.skip(cursor as int), 0).unwrap() =~= idx.model());
    }
    Ok(idx)
}

} // verus!

