//! The sidecar record codec: a key/value text form of a `FileRecord`.
//!
//! The encoding is a single object with the four fields in a fixed order,
//! each value a quoted string in which `"` and `\` are backslash-escaped:
//! `{"hash":"...","old_name":"...","new_name":"...","ncsum_name":"..."}`.
//! `encode_spec` is the one canonical encoding; `decode_spec` is its exact
//! inverse, and `lemma_record_round_trip` proves that every record survives
//! an encode/decode trip unchanged.

use vstd::prelude::*;

use crate::Error;
use crate::record::{FileRecord, RecordView};

verus! {

pub const QUOTE: u8 = 0x22;

pub const BACKSLASH: u8 = 0x5c;

/// How one byte appears inside a quoted string.
pub open spec fn escape_byte(b: u8) -> Seq<u8> {
    if b == QUOTE || b == BACKSLASH {
        seq![BACKSLASH, b]
    } else {
        seq![b]
    }
}

/// A whole byte string, escaped.
pub open spec fn escape(s: Seq<u8>) -> Seq<u8>
    decreases s.len(),
{
    if s.len() == 0 {
        Seq::empty()
    } else {
        escape_byte(s[0]) + escape(s.skip(1))
    }
}

/// Consume an escaped string up to and including its closing quote; yield the
/// unescaped content and the remainder of the input.
pub open spec fn parse_string(b: Seq<u8>) -> Option<(Seq<u8>, Seq<u8>)>
    decreases b.len(),
{
    if b.len() == 0 {
        Option::None
    } else if b[0] == QUOTE {
        Option::Some((Seq::empty(), b.skip(1)))
    } else if b[0] == BACKSLASH {
        if b.len() < 2 || (b[1] != QUOTE && b[1] != BACKSLASH) {
            Option::None
        } else {
            match parse_string(b.skip(2)) {
                Option::Some((s, rest)) => Option::Some((seq![b[1]] + s, rest)),
                Option::None => Option::None,
            }
        }
    } else {
        match parse_string(b.skip(1)) {
            Option::Some((s, rest)) => Option::Some((seq![b[0]] + s, rest)),
            Option::None => Option::None,
        }
    }
}

/// `{"hash":"`
pub open spec fn lit_head() -> Seq<u8> {
    seq![0x7b, 0x22, 0x68, 0x61, 0x73, 0x68, 0x22, 0x3a, 0x22]
}

/// `,"old_name":"`
pub open spec fn lit_old() -> Seq<u8> {
    seq![0x2c, 0x22, 0x6f, 0x6c, 0x64, 0x5f, 0x6e, 0x61, 0x6d, 0x65, 0x22, 0x3a, 0x22]
}

/// `,"new_name":"`
pub open spec fn lit_new() -> Seq<u8> {
    seq![0x2c, 0x22, 0x6e, 0x65, 0x77, 0x5f, 0x6e, 0x61, 0x6d, 0x65, 0x22, 0x3a, 0x22]
}

/// `,"ncsum_name":"`
pub open spec fn lit_ncsum() -> Seq<u8> {
    seq![
        0x2c,
        0x22,
        0x6e,
        0x63,
        0x73,
        0x75,
        0x6d,
        0x5f,
        0x6e,
        0x61,
        0x6d,
        0x65,
        0x22,
        0x3a,
        0x22,
    ]
}

/// `}`
pub open spec fn lit_tail() -> Seq<u8> {
    seq![0x7d]
}

/// The last segment of an encoding: the `ncsum_name` field and the closing brace.
pub open spec fn encode_seg4(r: RecordView) -> Seq<u8> {
    lit_ncsum() + escape(r.ncsum_name) + seq![QUOTE] + lit_tail()
}

/// The `new_name` field and everything after it.
pub open spec fn encode_seg3(r: RecordView) -> Seq<u8> {
    lit_new() + escape(r.new_name) + seq![QUOTE] + encode_seg4(r)
}

/// The `old_name` field and everything after it.
pub open spec fn encode_seg2(r: RecordView) -> Seq<u8> {
    lit_old() + escape(r.old_name) + seq![QUOTE] + encode_seg3(r)
}

/// The canonical encoding of a record.
pub open spec fn encode_spec(r: RecordView) -> Seq<u8> {
    lit_head() + escape(r.hash) + seq![QUOTE] + encode_seg2(r)
}

pub open spec fn starts_with(s: Seq<u8>, pre: Seq<u8>) -> bool {
    pre.len() <= s.len() && s.take(pre.len() as int) == pre
}

/// The exact inverse of `encode_spec`: `Some` for precisely the canonical
/// encodings, recovering the record.
pub open spec fn decode_spec(b: Seq<u8>) -> Option<RecordView> {
    if !starts_with(b, lit_head()) {
        Option::None
    } else {
        match parse_string(b.skip(lit_head().len() as int)) {
            Option::None => Option::None,
            Option::Some((hash, b1)) => if !starts_with(b1, lit_old()) {
                Option::None
            } else {
                match parse_string(b1.skip(lit_old().len() as int)) {
                    Option::None => Option::None,
                    Option::Some((old_name, b2)) => if !starts_with(b2, lit_new()) {
                        Option::None
                    } else {
                        match parse_string(b2.skip(lit_new().len() as int)) {
                            Option::None => Option::None,
                            Option::Some((new_name, b3)) => if !starts_with(b3, lit_ncsum()) {
                                Option::None
                            } else {
                                match parse_string(b3.skip(lit_ncsum().len() as int)) {
                                    Option::None => Option::None,
                                    Option::Some((ncsum_name, b4)) => if b4 == lit_tail() {
                                        Option::Some(
                                            RecordView { hash, old_name, new_name, ncsum_name },
                                        )
                                    } else {
                                        Option::None
                                    },
                                }
                            },
                        }
                    },
                }
            },
        }
    }
}

/// Escaping one more byte at the end appends its escape.
proof fn lemma_escape_snoc(s: Seq<u8>, c: u8)
    ensures
        escape(s.push(c)) == escape(s) + escape_byte(c),
    decreases s.len(),
{
    if s.len() == 0 {
        assert(s.push(c)[0] == c);
        assert(s.push(c).skip(1) =~= Seq::<u8>::empty());
        assert(escape(s.push(c)) == escape_byte(c) + escape(s.push(c).skip(1)));
        assert(escape(s.push(c).skip(1)) == Seq::<u8>::empty());
        assert(escape(s) == Seq::<u8>::empty());
        assert(escape(s.push(c)) =~= escape(s) + escape_byte(c));
    } else {
        let c0 = s[0];
        assert(s.push(c)[0] == c0);
        assert(s.push(c).skip(1) =~= s.skip(1).push(c));
        lemma_escape_snoc(s.skip(1), c);
        assert(escape(s.push(c)) == escape_byte(c0) + escape(s.skip(1).push(c)));
        assert(escape_byte(c0) + (escape(s.skip(1)) + escape_byte(c)) =~= (escape_byte(c0) + escape(
            s.skip(1),
        )) + escape_byte(c));
    }
}

/// Parsing an escaped string followed by its closing quote recovers the
/// string and leaves the remainder untouched.
proof fn lemma_parse_escape(s: Seq<u8>, rest: Seq<u8>)
    ensures
        parse_string(escape(s) + seq![QUOTE] + rest) == Option::Some((s, rest)),
    decreases s.len(),
{
    let b = escape(s) + seq![QUOTE] + rest;
    if s.len() == 0 {
        assert(b[0] == QUOTE);
        assert(b.skip(1) =~= rest);
        assert(s =~= Seq::<u8>::empty());
    } else {
        let c = s[0];
        let s2 = s.skip(1);
        lemma_parse_escape(s2, rest);
        let b2 = escape(s2) + seq![QUOTE] + rest;
        if c == QUOTE || c == BACKSLASH {
            assert(b[0] == BACKSLASH);
            assert(b[1] == c);
            assert(b.skip(2) =~= b2);
            assert(seq![b[1]] + s2 =~= s);
        } else {
            assert(b[0] == c);
            assert(b.skip(1) =~= b2);
            assert(seq![b[0]] + s2 =~= s);
        }
    }
}

/// Round trip: decoding a canonical encoding yields the record back, for
/// every record.
pub proof fn lemma_record_round_trip(r: RecordView)
    ensures
        decode_spec(encode_spec(r)) == Option::Some(r),
{
    let b = encode_spec(r);
    let t1 = encode_seg2(r);
    let t2 = encode_seg3(r);
    let t3 = encode_seg4(r);
    let t4 = lit_tail();

    assert(starts_with(b, lit_head())) by {
        assert(b.take(lit_head().len() as int) =~= lit_head());
    }
    assert(b.skip(lit_head().len() as int) =~= escape(r.hash) + seq![QUOTE] + t1);
    lemma_parse_escape(r.hash, t1);

    assert(starts_with(t1, lit_old())) by {
        assert(t1.take(lit_old().len() as int) =~= lit_old());
    }
    assert(t1.skip(lit_old().len() as int) =~= escape(r.old_name) + seq![QUOTE] + t2);
    lemma_parse_escape(r.old_name, t2);

    assert(starts_with(t2, lit_new())) by {
        assert(t2.take(lit_new().len() as int) =~= lit_new());
    }
    assert(t2.skip(lit_new().len() as int) =~= escape(r.new_name) + seq![QUOTE] + t3);
    lemma_parse_escape(r.new_name, t3);

    assert(starts_with(t3, lit_ncsum())) by {
        assert(t3.take(lit_ncsum().len() as int) =~= lit_ncsum());
    }
    assert(t3.skip(lit_ncsum().len() as int) =~= escape(r.ncsum_name) + seq![QUOTE] + t4);
    lemma_parse_escape(r.ncsum_name, t4);
}

/// Escaping at most doubles a string.
pub proof fn lemma_escape_len(s: Seq<u8>)
    ensures
        escape(s).len() <= 2 * s.len(),
    decreases s.len(),
{
    if s.len() > 0 {
        lemma_escape_len(s.skip(1));
    }
}

/// An encoding is no longer than a constant plus twice the fields.
pub proof fn lemma_encode_len(r: RecordView)
    ensures
        encode_spec(r).len() <= 56 + 2 * (r.hash.len() + r.old_name.len() + r.new_name.len()
            + r.ncsum_name.len()),
{
    lemma_escape_len(r.hash);
    lemma_escape_len(r.old_name);
    lemma_escape_len(r.new_name);
    lemma_escape_len(r.ncsum_name);
}

/// A parsed string body is strictly shorter than its quoted input.
proof fn lemma_parse_string_len(b: Seq<u8>)
    requires
        parse_string(b) is Some,
    ensures
        parse_string(b).unwrap().0.len() + 1 + parse_string(b).unwrap().1.len() <= b.len(),
    decreases b.len(),
{
    if b[0] == QUOTE {
    } else if b[0] == BACKSLASH {
        lemma_parse_string_len(b.skip(2));
    } else {
        lemma_parse_string_len(b.skip(1));
    }
}

/// Every field of a decoded record is shorter than the encoded bytes.
pub proof fn lemma_decode_lens(b: Seq<u8>)
    requires
        decode_spec(b) is Some,
    ensures
        decode_spec(b).unwrap().hash.len() < b.len(),
        decode_spec(b).unwrap().old_name.len() < b.len(),
        decode_spec(b).unwrap().new_name.len() < b.len(),
        decode_spec(b).unwrap().ncsum_name.len() < b.len(),
{
    let b0 = b.skip(lit_head().len() as int);
    lemma_parse_string_len(b0);
    let b1 = parse_string(b0).unwrap().1;
    lemma_parse_string_len(b1.skip(lit_old().len() as int));
    let b2 = parse_string(b1.skip(lit_old().len() as int)).unwrap().1;
    lemma_parse_string_len(b2.skip(lit_new().len() as int));
    let b3 = parse_string(b2.skip(lit_new().len() as int)).unwrap().1;
    lemma_parse_string_len(b3.skip(lit_ncsum().len() as int));
}

fn lit_head_bytes() -> (r: Vec<u8>)
    ensures
        r@ == lit_head(),
{
    let mut v: Vec<u8> = Vec::new();
    v.push(0x7b);
    v.push(0x22);
    v.push(0x68);
    v.push(0x61);
    v.push(0x73);
    v.push(0x68);
    v.push(0x22);
    v.push(0x3a);
    v.push(0x22);
    proof {
        assert(v@ =~= lit_head());
    }
    v
}

fn lit_old_bytes() -> (r: Vec<u8>)
    ensures
        r@ == lit_old(),
{
    let mut v: Vec<u8> = Vec::new();
    v.push(0x2c);
    v.push(0x22);
    v.push(0x6f);
    v.push(0x6c);
    v.push(0x64);
    v.push(0x5f);
    v.push(0x6e);
    v.push(0x61);
    v.push(0x6d);
    v.push(0x65);
    v.push(0x22);
    v.push(0x3a);
    v.push(0x22);
    proof {
        assert(v@ =~= lit_old());
    }
    v
}

fn lit_new_bytes() -> (r: Vec<u8>)
    ensures
        r@ == lit_new(),
{
    let mut v: Vec<u8> = Vec::new();
    v.push(0x2c);
    v.push(0x22);
    v.push(0x6e);
    v.push(0x65);
    v.push(0x77);
    v.push(0x5f);
    v.push(0x6e);
    v.push(0x61);
    v.push(0x6d);
    v.push(0x65);
    v.push(0x22);
    v.push(0x3a);
    v.push(0x22);
    proof {
        assert(v@ =~= lit_new());
    }
    v
}

fn lit_ncsum_bytes() -> (r: Vec<u8>)
    ensures
        r@ == lit_ncsum(),
{
    let mut v: Vec<u8> = Vec::new();
    v.push(0x2c);
    v.push(0x22);
    v.push(0x6e);
    v.push(0x63);
    v.push(0x73);
    v.push(0x75);
    v.push(0x6d);
    v.push(0x5f);
    v.push(0x6e);
    v.push(0x61);
    v.push(0x6d);
    v.push(0x65);
    v.push(0x22);
    v.push(0x3a);
    v.push(0x22);
    proof {
        assert(v@ =~= lit_ncsum());
    }
    v
}

/// Append the escaped form of `s` to `v`.
fn push_escaped(v: &mut Vec<u8>, s: &Vec<u8>)
    ensures
        final(v)@ == old(v)@ + escape(s@),
{
    proof {
        assert(s@.take(0) =~= Seq::<u8>::empty());
        assert(escape(s@.take(0)) == Seq::<u8>::empty());
        assert(v@ =~= v@ + escape(s@.take(0)));
    }
    let mut i: usize = 0;
    while i < s.len()
        invariant
            0 <= i <= s@.len(),
            v@ == old(v)@ + escape(s@.take(i as int)),
        decreases s@.len() - i,
    {
        let b = s[i];
        if b == QUOTE || b == BACKSLASH {
            v.push(BACKSLASH);
            v.push(b);
        } else {
            v.push(b);
        }
        proof {
            assert(s@.take(i + 1) =~= s@.take(i as int).push(s@[i as int]));
            lemma_escape_snoc(s@.take(i as int), s@[i as int]);
            assert(v@ =~= old(v)@ + escape(s@.take(i + 1)));
        }
        i = i + 1;
    }
    proof {
        assert(s@.take(s@.len() as int) =~= s@);
    }
}

/// Encode a record into its canonical byte form.
pub fn encode_record(r: &FileRecord) -> (out: Vec<u8>)
    ensures
        out@ == encode_spec(r@),
{
    let mut v4 = lit_ncsum_bytes();
    push_escaped(&mut v4, &r.ncsum_name);
    v4.push(QUOTE);
    v4.push(0x7d);
    proof {
        assert(v4@ =~= encode_seg4(r@));
    }

    let mut v3 = lit_new_bytes();
    push_escaped(&mut v3, &r.new_name);
    v3.push(QUOTE);
    v3.extend_from_slice(v4.as_slice());
    proof {
        assert(v3@ =~= encode_seg3(r@));
    }

    let mut v2 = lit_old_bytes();
    push_escaped(&mut v2, &r.old_name);
    v2.push(QUOTE);
    v2.extend_from_slice(v3.as_slice());
    proof {
        assert(v2@ =~= encode_seg2(r@));
    }

    let mut v = lit_head_bytes();
    push_escaped(&mut v, &r.hash);
    v.push(QUOTE);
    v.extend_from_slice(v2.as_slice());
    proof {
        assert(v@ =~= encode_spec(r@));
    }
    v
}

/// Whether `lit` stands at offset `pos` of `b`.
fn expect_lit(b: &Vec<u8>, pos: usize, lit: &Vec<u8>) -> (r: bool)
    requires
        pos <= b@.len(),
    ensures
        r == starts_with(b@.skip(pos as int), lit@),
        r ==> pos + lit@.len() <= b@.len(),
{
    let blen = b.len();
    if blen - pos < lit.len() {
        return false;
    }
    let mut k: usize = 0;
    while k < lit.len()
        invariant
            0 <= k <= lit@.len(),
            blen == b@.len(),
            pos + lit@.len() <= blen,
            forall|j: int| 0 <= j < k ==> b@[pos + j] == lit@[j],
        decreases lit@.len() - k,
    {
        if b[pos + k] != lit[k] {
            proof {
                let ki = k as int;
                assert(b@.skip(pos as int).take(lit@.len() as int)[ki] != lit@[ki]);
            }
            return false;
        }
        k = k + 1;
    }
    proof {
        assert(b@.skip(pos as int).take(lit@.len() as int) =~= lit@);
    }
    true
}

/// Consume a quoted-string body starting at `pos`, yielding the unescaped
/// content and the offset just past the closing quote — the executable face
/// of `parse_string`.
fn parse_string_at(b: &Vec<u8>, pos: usize) -> (r: Option<(Vec<u8>, usize)>)
    requires
        pos <= b@.len(),
    ensures
        match r {
            Option::Some(p) => p.1 <= b@.len() && parse_string(b@.skip(pos as int))
                == Option::Some((p.0@, b@.skip(p.1 as int))),
            Option::None => parse_string(b@.skip(pos as int)) is None,
        },
{
    let mut i: usize = pos;
    let mut out: Vec<u8> = Vec::new();
    while i < b.len()
        invariant
            pos <= i <= b@.len(),
            parse_string(b@.skip(pos as int)) == (match parse_string(b@.skip(i as int)) {
                Option::Some(p) => Option::Some((out@ + p.0, p.1)),
                Option::None => Option::<(Seq<u8>, Seq<u8>)>::None,
            }),
        decreases b@.len() - i,
    {
        let c = b[i];
        if c == QUOTE {
            proof {
                assert(b@.skip(i as int)[0] == QUOTE);
                assert(b@.skip(i as int).skip(1) =~= b@.skip(i + 1));
                assert(out@ + Seq::<u8>::empty() =~= out@);
            }
            return Option::Some((out, i + 1));
        } else if c == BACKSLASH {
            if i + 1 >= b.len() {
                proof {
                    assert(b@.skip(i as int).len() < 2);
                }
                return Option::None;
            }
            let e = b[i + 1];
            if e == QUOTE || e == BACKSLASH {
                let ghost out_old = out@;
                out.push(e);
                proof {
                    assert(b@.skip(i as int)[0] == BACKSLASH);
                    assert(b@.skip(i as int)[1] == e);
                    assert(b@.skip(i as int).skip(2) =~= b@.skip(i + 2));
                    match parse_string(b@.skip(i + 2)) {
                        Option::Some(p) => {
                            assert(out_old + (seq![e] + p.0) =~= (out_old + seq![e]) + p.0);
                        },
                        Option::None => {},
                    }
                }
                i = i + 2;
            } else {
                proof {
                    assert(b@.skip(i as int)[0] == BACKSLASH);
                    assert(b@.skip(i as int)[1] == e);
                }
                return Option::None;
            }
        } else {
            let ghost out_old = out@;
            out.push(c);
            proof {
                assert(b@.skip(i as int)[0] == c);
                assert(b@.skip(i as int).skip(1) =~= b@.skip(i + 1));
                match parse_string(b@.skip(i + 1)) {
                    Option::Some(p) => {
                        assert(out_old + (seq![c] + p.0) =~= (out_old + seq![c]) + p.0);
                    },
                    Option::None => {},
                }
            }
            i = i + 1;
        }
    }
    proof {
        assert(b@.skip(i as int).len() == 0);
    }
    Option::None
}

/// Decode a record from bytes.
///
/// Succeeds exactly on the canonical encodings: `Ok(rec)` means the input is
/// `encode_spec(rec@)`; any other input is `RecordDecode`.
#[verifier::rlimit(60)]
pub fn decode_record(bytes: &Vec<u8>) -> (r: Result<FileRecord, Error>)
    ensures
        match r {
            Ok(rec) => decode_spec(bytes@) == Option::Some(rec@),
            Err(e) => e == Error::RecordDecode && decode_spec(bytes@) is None,
        },
{
    let blen = bytes.len();
    proof {
        assert(bytes@.skip(0) =~= bytes@);
    }
    let lh = lit_head_bytes();
    if !expect_lit(bytes, 0, &lh) {
        return Err(Error::RecordDecode);
    }
    let hash_parse = parse_string_at(bytes, lh.len());
    let (hash, pos1) = match hash_parse {
        Option::Some(p) => p,
        Option::None => {
            return Err(Error::RecordDecode);
        },
    };

    let lo = lit_old_bytes();
    if !expect_lit(bytes, pos1, &lo) {
        return Err(Error::RecordDecode);
    }
    proof {
        assert(bytes@.skip(pos1 as int).skip(lit_old().len() as int) =~= bytes@.skip(
            pos1 + lit_old().len(),
        ));
    }
    proof {
        assert(pos1 + lo@.len() <= blen);
    }
    let old_parse = parse_string_at(bytes, pos1 + lo.len());
    let (old_name, pos2) = match old_parse {
        Option::Some(p) => p,
        Option::None => {
            return Err(Error::RecordDecode);
        },
    };

    let ln = lit_new_bytes();
    if !expect_lit(bytes, pos2, &ln) {
        return Err(Error::RecordDecode);
    }
    proof {
        assert(bytes@.skip(pos2 as int).skip(lit_new().len() as int) =~= bytes@.skip(
            pos2 + lit_new().len(),
        ));
    }
    proof {
        assert(pos2 + ln@.len() <= blen);
    }
    let new_parse = parse_string_at(bytes, pos2 + ln.len());
    let (new_name, pos3) = match new_parse {
        Option::Some(p) => p,
        Option::None => {
            return Err(Error::RecordDecode);
        },
    };

    let lc = lit_ncsum_bytes();
    if !expect_lit(bytes, pos3, &lc) {
        return Err(Error::RecordDecode);
    }
    proof {
        assert(bytes@.skip(pos3 as int).skip(lit_ncsum().len() as int) =~= bytes@.skip(
            pos3 + lit_ncsum().len(),
        ));
    }
    proof {
        assert(pos3 + lc@.len() <= blen);
    }
    let ncsum_parse = parse_string_at(bytes, pos3 + lc.len());
    let (ncsum_name, pos4) = match ncsum_parse {
        Option::Some(p) => p,
        Option::None => {
            return Err(Error::RecordDecode);
        },
    };

    if pos4 < blen && pos4 + 1 == blen && bytes[pos4] == 0x7d {
        let rec = FileRecord { hash, old_name, new_name, ncsum_name };
        proof {
            assert(bytes@.skip(pos4 as int) =~= lit_tail());
            assert(rec@ == RecordView {
                hash: rec.hash@,
                old_name: rec.old_name@,
                new_name: rec.new_name@,
                ncsum_name: rec.ncsum_name@,
            });
            assert(decode_spec(bytes@) == Option::Some(rec@));
        }
        Ok(rec)
    } else {
        proof {
            let b4 = bytes@.skip(pos4 as int);
            if b4.len() == lit_tail().len() && bytes@[pos4 as int] != 0x7d {
                assert(b4[0] != lit_tail()[0]);
            }
        }
        Err(Error::RecordDecode)
    }
}

} // verus!
