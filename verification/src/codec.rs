//! The binary form of the resource table: the artifact written at build time
//! and read back for dispatch.
//!
//! The encoding is a direct mapping-of-mappings layout: a row count, then per
//! row its path and its `(locale, template)` pairs, every string as a 64-bit
//! little-endian byte length followed by its UTF-8 bytes. Decoding fails on
//! any truncated, oversized or non-UTF-8 input; it never yields a partial
//! table.
use vstd::prelude::*;
use vstd::utf8::{
    valid_utf8, decode_utf8, encode_utf8, encode_utf8_valid_utf8, encode_utf8_decode_utf8,
};
use vstd::slice::{slice_subrange, slice_to_vec};
use crate::table::{ResourceTable, pairs_view, rows_view};

verus! {

/// A 64-bit value as eight little-endian bytes.
pub open spec fn enc_u64(x: u64) -> Seq<u8> {
    seq![
        (x & 0xff) as u8,
        ((x >> 8) & 0xff) as u8,
        ((x >> 16) & 0xff) as u8,
        ((x >> 24) & 0xff) as u8,
        ((x >> 32) & 0xff) as u8,
        ((x >> 40) & 0xff) as u8,
        ((x >> 48) & 0xff) as u8,
        ((x >> 56) & 0xff) as u8,
    ]
}

/// The eight little-endian bytes at `i`, recombined.
pub open spec fn le64_at(b: Seq<u8>, i: int) -> u64 {
    (b[i] as u64) | ((b[i + 1] as u64) << 8) | ((b[i + 2] as u64) << 16) | ((b[i + 3] as u64)
        << 24) | ((b[i + 4] as u64) << 32) | ((b[i + 5] as u64) << 40) | ((b[i + 6] as u64) << 48)
        | ((b[i + 7] as u64) << 56)
}

/// Reads a 64-bit value at `i`, if eight bytes are there.
pub open spec fn dec_u64(b: Seq<u8>, i: int) -> Option<(u64, int)> {
    if 0 <= i && i + 8 <= b.len() {
        Some((le64_at(b, i), i + 8))
    } else {
        None
    }
}

/// A string as its UTF-8 byte length and its UTF-8 bytes.
pub open spec fn enc_str(s: Seq<char>) -> Seq<u8> {
    enc_u64(encode_utf8(s).len() as u64) + encode_utf8(s)
}

/// Reads a string at `i`: its byte length, then that many bytes of UTF-8.
pub open spec fn dec_str(b: Seq<u8>, i: int) -> Option<(Seq<char>, int)> {
    match dec_u64(b, i) {
        Some((n, j)) => if j + n <= b.len() && valid_utf8(b.subrange(j, j + n)) {
            Some((decode_utf8(b.subrange(j, j + n)), j + n))
        } else {
            None
        },
        None => None,
    }
}

/// One `(locale, template)` pair.
pub open spec fn enc_pair(p: (Seq<char>, Seq<char>)) -> Seq<u8> {
    enc_str(p.0) + enc_str(p.1)
}

/// Reads one `(locale, template)` pair at `i`.
pub open spec fn dec_pair(b: Seq<u8>, i: int) -> Option<((Seq<char>, Seq<char>), int)> {
    match dec_str(b, i) {
        Some((k, j)) => match dec_str(b, j) {
            Some((v, j2)) => Some(((k, v), j2)),
            None => None,
        },
        None => None,
    }
}

/// The pairs of one row, in order.
pub open spec fn enc_pairs_items(s: Seq<(Seq<char>, Seq<char>)>) -> Seq<u8>
    decreases s.len(),
{
    if s.len() == 0 {
        Seq::empty()
    } else {
        enc_pair(s.first()) + enc_pairs_items(s.drop_first())
    }
}

/// Reads `n` pairs starting at `i`.
pub open spec fn dec_pairs_items(b: Seq<u8>, i: int, n: int) -> Option<
    (Seq<(Seq<char>, Seq<char>)>, int),
>
    decreases n,
{
    if n <= 0 {
        Some((Seq::empty(), i))
    } else {
        match dec_pair(b, i) {
            Some((p, j)) => match dec_pairs_items(b, j, n - 1) {
                Some((rest, j2)) => Some((seq![p] + rest, j2)),
                None => None,
            },
            None => None,
        }
    }
}

/// One row: its path, its pair count, its pairs.
pub open spec fn enc_row(r: (Seq<char>, Seq<(Seq<char>, Seq<char>)>)) -> Seq<u8> {
    enc_str(r.0) + enc_u64(r.1.len() as u64) + enc_pairs_items(r.1)
}

/// Reads one row at `i`.
pub open spec fn dec_row(b: Seq<u8>, i: int) -> Option<
    ((Seq<char>, Seq<(Seq<char>, Seq<char>)>), int),
> {
    match dec_str(b, i) {
        Some((path, j)) => match dec_u64(b, j) {
            Some((n, j2)) => match dec_pairs_items(b, j2, n as int) {
                Some((pairs, j3)) => Some(((path, pairs), j3)),
                None => None,
            },
            None => None,
        },
        None => None,
    }
}

/// The rows, in order.
pub open spec fn enc_rows_items(s: Seq<(Seq<char>, Seq<(Seq<char>, Seq<char>)>)>) -> Seq<u8>
    decreases s.len(),
{
    if s.len() == 0 {
        Seq::empty()
    } else {
        enc_row(s.first()) + enc_rows_items(s.drop_first())
    }
}

/// Reads `n` rows starting at `i`.
pub open spec fn dec_rows_items(b: Seq<u8>, i: int, n: int) -> Option<
    (Seq<(Seq<char>, Seq<(Seq<char>, Seq<char>)>)>, int),
>
    decreases n,
{
    if n <= 0 {
        Some((Seq::empty(), i))
    } else {
        match dec_row(b, i) {
            Some((r, j)) => match dec_rows_items(b, j, n - 1) {
                Some((rest, j2)) => Some((seq![r] + rest, j2)),
                None => None,
            },
            None => None,
        }
    }
}

/// The whole table: a row count, then the rows.
pub open spec fn enc_table(rows: Seq<(Seq<char>, Seq<(Seq<char>, Seq<char>)>)>) -> Seq<u8> {
    enc_u64(rows.len() as u64) + enc_rows_items(rows)
}

/// Reads a whole table, which must consume the input exactly.
pub open spec fn dec_table(b: Seq<u8>) -> Option<Seq<(Seq<char>, Seq<(Seq<char>, Seq<char>)>)>> {
    match dec_u64(b, 0) {
        Some((n, i)) => match dec_rows_items(b, i, n as int) {
            Some((rows, j)) => if j == b.len() {
                Some(rows)
            } else {
                None
            },
            None => None,
        },
        None => None,
    }
}

/// The string's UTF-8 form fits an encodable length.
pub open spec fn str_fits(s: Seq<char>) -> bool {
    encode_utf8(s).len() <= u64::MAX
}

/// Every string of the pair list fits, and so does its count.
pub open spec fn pairs_fit(s: Seq<(Seq<char>, Seq<char>)>) -> bool {
    s.len() <= u64::MAX && forall|i: int|
        0 <= i < s.len() ==> str_fits((#[trigger] s[i]).0) && str_fits(s[i].1)
}

/// Every part of the rows fits an encodable length.
pub open spec fn rows_fit(rows: Seq<(Seq<char>, Seq<(Seq<char>, Seq<char>)>)>) -> bool {
    rows.len() <= u64::MAX && forall|i: int|
        0 <= i < rows.len() ==> str_fits((#[trigger] rows[i]).0) && pairs_fit(rows[i].1)
}

/// Reading eight bytes that encode `x` yields `x`.
pub proof fn lemma_dec_enc_u64(b: Seq<u8>, i: int, x: u64)
    requires
        0 <= i,
        i + 8 <= b.len(),
        b.subrange(i, i + 8) == enc_u64(x),
    ensures
        dec_u64(b, i) == Some((x, i + 8)),
{
    let e = enc_u64(x);
    assert(b[i] == e[0]);
    assert(b[i + 1] == e[1]);
    assert(b[i + 2] == e[2]);
    assert(b[i + 3] == e[3]);
    assert(b[i + 4] == e[4]);
    assert(b[i + 5] == e[5]);
    assert(b[i + 6] == e[6]);
    assert(b[i + 7] == e[7]);
    assert((((x & 0xff) as u8) as u64) | ((((x >> 8) & 0xff) as u8) as u64) << 8 | ((((x >> 16)
        & 0xff) as u8) as u64) << 16 | ((((x >> 24) & 0xff) as u8) as u64) << 24 | ((((x >> 32)
        & 0xff) as u8) as u64) << 32 | ((((x >> 40) & 0xff) as u8) as u64) << 40 | ((((x >> 48)
        & 0xff) as u8) as u64) << 48 | ((((x >> 56) & 0xff) as u8) as u64) << 56 == x)
        by (bit_vector);
}

/// Reading a string that was encoded yields the string back.
pub proof fn lemma_dec_enc_str(b: Seq<u8>, i: int, s: Seq<char>)
    requires
        0 <= i,
        i + enc_str(s).len() <= b.len(),
        b.subrange(i, i + enc_str(s).len()) == enc_str(s),
        str_fits(s),
    ensures
        dec_str(b, i) == Some((s, i + enc_str(s).len())),
{
    let u = encode_utf8(s);
    let m = u.len() as int;
    let all = enc_str(s);
    let ll = all.len() as int;
    assert(b.subrange(i, i + 8) =~= enc_u64(m as u64)) by {
        assert forall|k: int| 0 <= k < 8 implies #[trigger] b.subrange(i, i + 8)[k] == enc_u64(
            m as u64,
        )[k] by {
            assert(b.subrange(i, i + ll)[k] == all[k]);
        }
    }
    lemma_dec_enc_u64(b, i, m as u64);
    assert(b.subrange(i + 8, i + 8 + m) =~= u) by {
        assert forall|k: int| 0 <= k < m implies b.subrange(i + 8, i + 8 + m)[k] == u[k] by {
            assert(b.subrange(i, i + ll)[8 + k] == all[8 + k]);
        }
    }
    encode_utf8_valid_utf8(s);
    encode_utf8_decode_utf8(s);
}

/// Reading `s.len()` pairs from their encoding yields the pairs back.
pub proof fn lemma_dec_enc_pairs_items(b: Seq<u8>, i: int, s: Seq<(Seq<char>, Seq<char>)>)
    requires
        0 <= i,
        i + enc_pairs_items(s).len() <= b.len(),
        b.subrange(i, i + enc_pairs_items(s).len()) == enc_pairs_items(s),
        pairs_fit(s),
    ensures
        dec_pairs_items(b, i, s.len() as int) == Some((s, i + enc_pairs_items(s).len())),
    decreases s.len(),
{
    if s.len() == 0 {
    } else {
        let p = s.first();
        let rest = s.drop_first();
        let e1 = enc_str(p.0);
        let e2 = enc_str(p.1);
        let er = enc_pairs_items(rest);
        let all = enc_pairs_items(s);
        let ll = all.len() as int;
        assert(all == (e1 + e2) + er);
        assert(b.subrange(i, i + e1.len()) =~= e1) by {
            assert forall|k: int| 0 <= k < e1.len() implies b.subrange(i, i + e1.len() as int)[k]
                == e1[k] by {
                assert(b.subrange(i, i + ll)[k] == all[k]);
            }
        }
        lemma_dec_enc_str(b, i, p.0);
        let j = i + e1.len();
        assert(b.subrange(j, j + e2.len()) =~= e2) by {
            assert forall|k: int| 0 <= k < e2.len() implies b.subrange(j, j + e2.len() as int)[k]
                == e2[k] by {
                assert(b.subrange(i, i + ll)[(j - i) + k] == all[(j - i) + k]);
            }
        }
        lemma_dec_enc_str(b, j, p.1);
        let j2 = j + e2.len();
        assert(b.subrange(j2, j2 + er.len()) =~= er) by {
            assert forall|k: int| 0 <= k < er.len() implies b.subrange(j2, j2 + er.len() as int)[k]
                == er[k] by {
                assert(b.subrange(i, i + ll)[(j2 - i) + k] == all[(j2 - i) + k]);
            }
        }
        lemma_dec_enc_pairs_items(b, j2, rest);
        assert(seq![p] + rest =~= s);
    }
}

/// Reading a row from its encoding yields the row back.
pub proof fn lemma_dec_enc_row(b: Seq<u8>, i: int, r: (Seq<char>, Seq<(Seq<char>, Seq<char>)>))
    requires
        0 <= i,
        i + enc_row(r).len() <= b.len(),
        b.subrange(i, i + enc_row(r).len()) == enc_row(r),
        str_fits(r.0),
        pairs_fit(r.1),
    ensures
        dec_row(b, i) == Some((r, i + enc_row(r).len())),
{
    let e1 = enc_str(r.0);
    let e2 = enc_u64(r.1.len() as u64);
    let e3 = enc_pairs_items(r.1);
    let all = enc_row(r);
    let ll = all.len() as int;
    assert(all == (e1 + e2) + e3);
    assert(b.subrange(i, i + e1.len()) =~= e1) by {
        assert forall|k: int| 0 <= k < e1.len() implies b.subrange(i, i + e1.len() as int)[k]
            == e1[k] by {
            assert(b.subrange(i, i + ll)[k] == all[k]);
        }
    }
    lemma_dec_enc_str(b, i, r.0);
    let j = i + e1.len();
    assert(b.subrange(j, j + 8) =~= e2) by {
        assert forall|k: int| 0 <= k < 8 implies b.subrange(j, j + 8)[k] == e2[k] by {
            assert(b.subrange(i, i + ll)[(j - i) + k] == all[(j - i) + k]);
        }
    }
    lemma_dec_enc_u64(b, j, r.1.len() as u64);
    let j2 = j + 8;
    assert(b.subrange(j2, j2 + e3.len()) =~= e3) by {
        assert forall|k: int| 0 <= k < e3.len() implies b.subrange(j2, j2 + e3.len() as int)[k]
            == e3[k] by {
            assert(b.subrange(i, i + ll)[(j2 - i) + k] == all[(j2 - i) + k]);
        }
    }
    lemma_dec_enc_pairs_items(b, j2, r.1);
}

/// Reading `s.len()` rows from their encoding yields the rows back.
#[verifier::rlimit(50)]
pub proof fn lemma_dec_enc_rows_items(
    b: Seq<u8>,
    i: int,
    s: Seq<(Seq<char>, Seq<(Seq<char>, Seq<char>)>)>,
)
    requires
        0 <= i,
        i + enc_rows_items(s).len() <= b.len(),
        b.subrange(i, i + enc_rows_items(s).len()) == enc_rows_items(s),
        rows_fit(s),
    ensures
        dec_rows_items(b, i, s.len() as int) == Some((s, i + enc_rows_items(s).len())),
    decreases s.len(),
{
    if s.len() == 0 {
    } else {
        let r = s.first();
        let rest = s.drop_first();
        let e1 = enc_row(r);
        let er = enc_rows_items(rest);
        let all = enc_rows_items(s);
        let ll = all.len() as int;
        assert(all == e1 + er);
        assert(b.subrange(i, i + e1.len()) =~= e1) by {
            assert forall|k: int| 0 <= k < e1.len() implies b.subrange(i, i + e1.len() as int)[k]
                == e1[k] by {
                assert(b.subrange(i, i + ll)[k] == all[k]);
            }
        }
        lemma_dec_enc_row(b, i, r);
        let j = i + e1.len();
        assert(b.subrange(j, j + er.len()) =~= er) by {
            assert forall|k: int| 0 <= k < er.len() implies b.subrange(j, j + er.len() as int)[k]
                == er[k] by {
                assert(b.subrange(i, i + ll)[(j - i) + k] == all[(j - i) + k]);
            }
        }
        lemma_dec_enc_rows_items(b, j, rest);
        assert(seq![r] + rest =~= s);
    }
}

/// Appends the eight little-endian bytes of `x`.
fn push_u64(out: &mut Vec<u8>, x: u64)
    ensures
        final(out)@ == old(out)@ + enc_u64(x),
{
    proof {
        assert((x & 0xff) < 256 && ((x >> 8) & 0xff) < 256 && ((x >> 16) & 0xff) < 256 && ((x >> 24)
            & 0xff) < 256 && ((x >> 32) & 0xff) < 256 && ((x >> 40) & 0xff) < 256 && ((x >> 48)
            & 0xff) < 256 && ((x >> 56) & 0xff) < 256) by (bit_vector);
    }
    out.push((x & 0xff) as u8);
    out.push(((x >> 8) & 0xff) as u8);
    out.push(((x >> 16) & 0xff) as u8);
    out.push(((x >> 24) & 0xff) as u8);
    out.push(((x >> 32) & 0xff) as u8);
    out.push(((x >> 40) & 0xff) as u8);
    out.push(((x >> 48) & 0xff) as u8);
    out.push(((x >> 56) & 0xff) as u8);
    proof {
        assert(out@ =~= old(out)@ + enc_u64(x));
    }
}

/// Appends the encoding of one string: its UTF-8 byte length, then its
/// UTF-8 bytes.
#[verifier::loop_isolation(false)]
fn push_str(out: &mut Vec<u8>, s: &String)
    ensures
        final(out)@ == old(out)@ + enc_str(s@),
{
    let bs = s.as_str().as_bytes();
    push_u64(out, bs.len() as u64);
    let ghost mid = out@;
    let mut i: usize = 0;
    while i < bs.len()
        invariant
            i <= bs@.len(),
            out@ == mid + bs@.take(i as int),
        decreases bs@.len() - i,
    {
        out.push(bs[i]);
        proof {
            assert(bs@.take(i as int + 1) =~= bs@.take(i as int).push(bs@[i as int]));
            assert(out@ =~= mid + bs@.take(i as int + 1));
        }
        i = i + 1;
    }
    proof {
        assert(bs@.take(bs@.len() as int) =~= bs@);
        assert(out@ =~= old(out)@ + enc_str(s@));
    }
}

/// Taking one more pair appends that pair's encoding.
pub proof fn lemma_enc_pairs_take_step(s: Seq<(Seq<char>, Seq<char>)>, i: int)
    requires
        0 <= i < s.len(),
    ensures
        enc_pairs_items(s.take(i + 1)) == enc_pairs_items(s.take(i)) + enc_pair(s[i]),
    decreases i,
{
    if i == 0 {
        assert(s.take(0) =~= Seq::<(Seq<char>, Seq<char>)>::empty());
        assert(s.take(1).first() == s[0]);
        assert(s.take(1).drop_first() =~= Seq::<(Seq<char>, Seq<char>)>::empty());
        assert(enc_pairs_items(s.take(1)) =~= enc_pairs_items(s.take(0)) + enc_pair(s[0]));
    } else {
        lemma_enc_pairs_take_step(s.drop_first(), i - 1);
        assert(s.take(i + 1).first() == s[0]);
        assert(s.take(i).first() == s[0]);
        assert(s.take(i + 1).drop_first() =~= s.drop_first().take(i));
        assert(s.take(i).drop_first() =~= s.drop_first().take(i - 1));
        assert(s.drop_first()[i - 1] == s[i]);
        assert(enc_pairs_items(s.take(i + 1)) =~= enc_pairs_items(s.take(i)) + enc_pair(s[i]));
    }
}

/// Taking one more row appends that row's encoding.
pub proof fn lemma_enc_rows_take_step(s: Seq<(Seq<char>, Seq<(Seq<char>, Seq<char>)>)>, i: int)
    requires
        0 <= i < s.len(),
    ensures
        enc_rows_items(s.take(i + 1)) == enc_rows_items(s.take(i)) + enc_row(s[i]),
    decreases i,
{
    if i == 0 {
        assert(s.take(0) =~= Seq::<(Seq<char>, Seq<(Seq<char>, Seq<char>)>)>::empty());
        assert(s.take(1).first() == s[0]);
        assert(s.take(1).drop_first() =~= Seq::<(Seq<char>, Seq<(Seq<char>, Seq<char>)>)>::empty());
        assert(enc_rows_items(s.take(1)) =~= enc_rows_items(s.take(0)) + enc_row(s[0]));
    } else {
        lemma_enc_rows_take_step(s.drop_first(), i - 1);
        assert(s.take(i + 1).first() == s[0]);
        assert(s.take(i).first() == s[0]);
        assert(s.take(i + 1).drop_first() =~= s.drop_first().take(i));
        assert(s.take(i).drop_first() =~= s.drop_first().take(i - 1));
        assert(s.drop_first()[i - 1] == s[i]);
        assert(enc_rows_items(s.take(i + 1)) =~= enc_rows_items(s.take(i)) + enc_row(s[i]));
    }
}

/// Serializes the table to its binary form.
#[verifier::loop_isolation(false)]
pub fn serialize(table: &ResourceTable) -> (r: Result<Vec<u8>, crate::Error>)
    ensures
        r is Ok,
        r matches Ok(b) ==> b@ == enc_table(table.view_rows()),
{
    let ghost rv = table.view_rows();
    let mut out: Vec<u8> = Vec::new();
    push_u64(&mut out, table.rows.len() as u64);
    proof {
        assert(rv.take(0) =~= Seq::<(Seq<char>, Seq<(Seq<char>, Seq<char>)>)>::empty());
        assert(out@ =~= Seq::<u8>::empty() + enc_u64(rv.len() as u64));
        assert(out@ =~= enc_u64(rv.len() as u64) + enc_rows_items(rv.take(0)));
    }
    let mut r: usize = 0;
    while r < table.rows.len()
        invariant
            r <= table.rows@.len(),
            out@ == enc_u64(rv.len() as u64) + enc_rows_items(rv.take(r as int)),
        decreases table.rows@.len() - r,
    {
        let ghost pv = pairs_view(table.rows@[r as int].1@);
        push_str(&mut out, &table.rows[r].0);
        push_u64(&mut out, table.rows[r].1.len() as u64);
        let ghost mid = out@;
        proof {
            assert(pv.take(0) =~= Seq::<(Seq<char>, Seq<char>)>::empty());
            assert(mid =~= enc_u64(rv.len() as u64) + enc_rows_items(rv.take(r as int)) + enc_str(
                rv[r as int].0,
            ) + enc_u64(pv.len() as u64) + enc_pairs_items(pv.take(0)));
        }
        let mut k: usize = 0;
        while k < table.rows[r].1.len()
            invariant
                k <= table.rows@[r as int].1@.len(),
                out@ == mid + enc_pairs_items(pv.take(k as int)),
            decreases table.rows@[r as int].1@.len() - k,
        {
            push_str(&mut out, &table.rows[r].1[k].0);
            push_str(&mut out, &table.rows[r].1[k].1);
            proof {
                lemma_enc_pairs_take_step(pv, k as int);
                assert(out@ =~= mid + enc_pairs_items(pv.take(k as int + 1)));
            }
            k = k + 1;
        }
        proof {
            assert(pv.take(pv.len() as int) =~= pv);
            lemma_enc_rows_take_step(rv, r as int);
            assert(enc_row(rv[r as int]) == enc_str(rv[r as int].0) + enc_u64(pv.len() as u64)
                + enc_pairs_items(pv));
            assert(out@ =~= enc_u64(rv.len() as u64) + enc_rows_items(rv.take(r as int + 1)));
        }
        r = r + 1;
    }
    proof {
        assert(rv.take(rv.len() as int) =~= rv);
    }
    Ok(out)
}

/// Relies on String::from_utf8: it succeeds exactly on valid UTF-8 and the
/// returned string wraps the given bytes unchanged.
#[verifier::external_body]
fn string_from_utf8(v: Vec<u8>) -> (r: Option<String>)
    ensures
        r is Some <==> valid_utf8(v@),
        r matches Some(s) ==> encode_utf8(s@) == v@,
{
    String::from_utf8(v).ok()
}

/// Reads eight little-endian bytes at `pos`.
fn read_u64(b: &[u8], pos: usize) -> (r: Option<(u64, usize)>)
    ensures
        match r {
            Some((x, j)) => dec_u64(b@, pos as int) == Some((x, j as int)),
            None => dec_u64(b@, pos as int) is None,
        },
{
    if pos <= b.len() && b.len() - pos >= 8 {
        let x = (b[pos] as u64) | ((b[pos + 1] as u64) << 8) | ((b[pos + 2] as u64) << 16) | ((b[pos
            + 3] as u64) << 24) | ((b[pos + 4] as u64) << 32) | ((b[pos + 5] as u64) << 40) | ((b[pos
            + 6] as u64) << 48) | ((b[pos + 7] as u64) << 56);
        Some((x, pos + 8))
    } else {
        None
    }
}

/// Reads one length-prefixed UTF-8 string at `pos`.
fn read_str(b: &[u8], pos: usize) -> (r: Option<(String, usize)>)
    ensures
        match r {
            Some((s, j)) => dec_str(b@, pos as int) == Some((s@, j as int)),
            None => dec_str(b@, pos as int) is None,
        },
{
    match read_u64(b, pos) {
        None => None,
        Some((n, j)) => {
            if n <= (b.len() - j) as u64 {
                let m = n as usize;
                let sl = slice_subrange(b, j, j + m);
                let v = slice_to_vec(sl);
                match string_from_utf8(v) {
                    Some(s) => {
                        proof {
                            encode_utf8_decode_utf8(s@);
                        }
                        Some((s, j + m))
                    },
                    None => None,
                }
            } else {
                None
            }
        },
    }
}

/// Reads `n` `(locale, template)` pairs at `pos`.
#[verifier::loop_isolation(false)]
fn read_pairs(b: &[u8], pos: usize, n: u64) -> (r: Option<(Vec<(String, String)>, usize)>)
    ensures
        match r {
            Some((ps, j)) => dec_pairs_items(b@, pos as int, n as int) == Some(
                (pairs_view(ps@), j as int),
            ),
            None => dec_pairs_items(b@, pos as int, n as int) is None,
        },
{
    let mut acc: Vec<(String, String)> = Vec::new();
    let mut cur: usize = pos;
    let mut k: u64 = 0;
    proof {
        assert(pairs_view(acc@) =~= Seq::<(Seq<char>, Seq<char>)>::empty());
    }
    while k < n
        invariant
            0 <= k <= n,
            dec_pairs_items(b@, pos as int, n as int) == (match dec_pairs_items(
                b@,
                cur as int,
                n - k,
            ) {
                Some((rest, end)) => Some((pairs_view(acc@) + rest, end)),
                None => None::<(Seq<(Seq<char>, Seq<char>)>, int)>,
            }),
        decreases n - k,
    {
        let ghost acc0 = pairs_view(acc@);
        match read_str(b, cur) {
            None => {
                return None;
            },
            Some((key, j)) => {
                match read_str(b, j) {
                    None => {
                        return None;
                    },
                    Some((val, j2)) => {
                        acc.push((key, val));
                        cur = j2;
                        proof {
                            let p = (acc@.last().0@, acc@.last().1@);
                            assert(pairs_view(acc@) =~= acc0.push(p));
                            let pr = dec_pairs_items(b@, cur as int, n - k - 1);
                            if pr is Some {
                                let rest = pr.unwrap().0;
                                assert(acc0 + (seq![p] + rest) =~= pairs_view(acc@) + rest);
                            }
                        }
                    },
                }
            },
        }
        k = k + 1;
    }
    proof {
        assert(dec_pairs_items(b@, cur as int, 0int) == Some(
            (Seq::<(Seq<char>, Seq<char>)>::empty(), cur as int),
        ));
        assert(pairs_view(acc@) + Seq::<(Seq<char>, Seq<char>)>::empty() =~= pairs_view(acc@));
    }
    Some((acc, cur))
}

/// Reads `n` rows at `pos`.
#[verifier::loop_isolation(false)]
fn read_rows(b: &[u8], pos: usize, n: u64) -> (r: Option<
    (Vec<(String, Vec<(String, String)>)>, usize),
>)
    ensures
        match r {
            Some((rows, j)) => dec_rows_items(b@, pos as int, n as int) == Some(
                (rows_view(rows@), j as int),
            ),
            None => dec_rows_items(b@, pos as int, n as int) is None,
        },
{
    let mut acc: Vec<(String, Vec<(String, String)>)> = Vec::new();
    let mut cur: usize = pos;
    let mut k: u64 = 0;
    proof {
        assert(rows_view(acc@) =~= Seq::<(Seq<char>, Seq<(Seq<char>, Seq<char>)>)>::empty());
    }
    while k < n
        invariant
            0 <= k <= n,
            dec_rows_items(b@, pos as int, n as int) == (match dec_rows_items(
                b@,
                cur as int,
                n - k,
            ) {
                Some((rest, end)) => Some((rows_view(acc@) + rest, end)),
                None => None::<(Seq<(Seq<char>, Seq<(Seq<char>, Seq<char>)>)>, int)>,
            }),
        decreases n - k,
    {
        let ghost acc0 = rows_view(acc@);
        match read_str(b, cur) {
            None => {
                return None;
            },
            Some((path, j)) => {
                match read_u64(b, j) {
                    None => {
                        return None;
                    },
                    Some((pn, j2)) => {
                        match read_pairs(b, j2, pn) {
                            None => {
                                return None;
                            },
                            Some((pairs, j3)) => {
                                acc.push((path, pairs));
                                cur = j3;
                                proof {
                                    let rw = (acc@.last().0@, pairs_view(acc@.last().1@));
                                    assert(rows_view(acc@) =~= acc0.push(rw));
                                    let pr = dec_rows_items(b@, cur as int, n - k - 1);
                                    if pr is Some {
                                        let rest = pr.unwrap().0;
                                        assert(acc0 + (seq![rw] + rest) =~= rows_view(acc@)
                                            + rest);
                                    }
                                }
                            },
                        }
                    },
                }
            },
        }
        k = k + 1;
    }
    proof {
        assert(dec_rows_items(b@, cur as int, 0int) == Some(
            (Seq::<(Seq<char>, Seq<(Seq<char>, Seq<char>)>)>::empty(), cur as int),
        ));
        assert(rows_view(acc@) + Seq::<(Seq<char>, Seq<(Seq<char>, Seq<char>)>)>::empty()
            =~= rows_view(acc@));
    }
    Some((acc, cur))
}

/// Deserializes the binary form back into a table: an exact inverse of
/// `serialize`, and an error on any input no table encodes to.
pub fn deserialize(bytes: &[u8]) -> (r: Result<ResourceTable, crate::Error>)
    ensures
        match r {
            Ok(t) => dec_table(bytes@) == Some(t.view_rows()),
            Err(_) => dec_table(bytes@) is None,
        },
{
    match read_u64(bytes, 0) {
        None => Err(crate::Error::Decode),
        Some((n, j)) => {
            match read_rows(bytes, j, n) {
                None => Err(crate::Error::Decode),
                Some((rows, j2)) => {
                    if j2 == bytes.len() {
                        Ok(ResourceTable { rows })
                    } else {
                        Err(crate::Error::Decode)
                    }
                },
            }
        },
    }
}

/// The serialization round trip: decoding the encoding of any table whose
/// sizes are encodable yields exactly that table, the empty table included.
pub proof fn lemma_codec_round_trip(rows: Seq<(Seq<char>, Seq<(Seq<char>, Seq<char>)>)>)
    requires
        rows_fit(rows),
    ensures
        dec_table(enc_table(rows)) == Some(rows),
{
    let b = enc_table(rows);
    assert(b.subrange(0, 8) =~= enc_u64(rows.len() as u64));
    lemma_dec_enc_u64(b, 0, rows.len() as u64);
    assert(b.subrange(8, 8 + enc_rows_items(rows).len() as int) =~= enc_rows_items(rows));
    lemma_dec_enc_rows_items(b, 8, rows);
}

} // verus!
