//! The container codec: an ordered stream of named entries, each a fixed
//! 110-byte ASCII header (magic plus thirteen 8-digit lowercase hex fields),
//! a NUL-terminated name, and the payload bytes, both padded to four-byte
//! boundaries, closed by a trailer entry with a reserved name and no payload.
//!
//! A container written by this system holds exactly two content entries — the
//! record entry and the payload entry — and the trailer.  `container_spec`
//! is the byte form of such a container; `parse_entries_at` reads any
//! well-formed stream entry by entry up to the trailer, and
//! `lemma_container_round_trip` proves that reading back a written container
//! yields exactly the two entries that went in.

use vstd::arithmetic::div_mod::lemma_mod_breakdown;
use vstd::prelude::*;

use crate::Error;

verus! {

/// `070701`, the magic that opens every entry header.
pub open spec fn magic() -> Seq<u8> {
    seq![0x30, 0x37, 0x30, 0x37, 0x30, 0x31]
}

/// `TRAILER!!!`, the reserved name of the end-of-stream entry.
pub open spec fn trailer_name() -> Seq<u8> {
    seq![0x54, 0x52, 0x41, 0x49, 0x4c, 0x45, 0x52, 0x21, 0x21, 0x21]
}

pub fn trailer_name_bytes() -> (r: Vec<u8>)
    ensures
        r@ == trailer_name(),
{
    let mut v: Vec<u8> = Vec::new();
    v.push(0x54);
    v.push(0x52);
    v.push(0x41);
    v.push(0x49);
    v.push(0x4c);
    v.push(0x45);
    v.push(0x52);
    v.push(0x21);
    v.push(0x21);
    v.push(0x21);
    proof {
        assert(v@ =~= trailer_name());
    }
    v
}

pub open spec fn pow16(k: nat) -> nat
    decreases k,
{
    if k == 0 {
        1
    } else {
        16 * pow16((k - 1) as nat)
    }
}

/// The lowercase hex digit for a nibble.
pub open spec fn hex_char(d: nat) -> u8 {
    if d < 10 {
        (0x30 + d) as u8
    } else {
        (0x57 + d) as u8
    }
}

pub open spec fn is_lower_hex(c: u8) -> bool {
    (0x30 <= c && c <= 0x39) || (0x61 <= c && c <= 0x66)
}

pub open spec fn hex_val(c: u8) -> nat {
    if 0x30 <= c && c <= 0x39 {
        (c - 0x30) as nat
    } else {
        (c - 0x57) as nat
    }
}

/// The `k` lowest hex digits of `v`, most significant first.
pub open spec fn hex_seq(v: nat, k: nat) -> Seq<u8>
    decreases k,
{
    if k == 0 {
        Seq::empty()
    } else {
        seq![hex_char((v / pow16((k - 1) as nat)) % 16)] + hex_seq(v, (k - 1) as nat)
    }
}

/// An 8-digit lowercase hex header field.
pub open spec fn hex8(v: nat) -> Seq<u8> {
    hex_seq(v, 8)
}

/// The value of a lowercase hex numeral; `None` if any digit is not one.
pub open spec fn parse_hex(s: Seq<u8>) -> Option<nat>
    decreases s.len(),
{
    if s.len() == 0 {
        Option::Some(0)
    } else if !is_lower_hex(s[0]) {
        Option::None
    } else {
        match parse_hex(s.skip(1)) {
            Option::Some(v) => Option::Some(hex_val(s[0]) * pow16((s.len() - 1) as nat) + v),
            Option::None => Option::None,
        }
    }
}

proof fn lemma_pow16_values()
    ensures
        pow16(0) == 1,
        pow16(1) == 16,
        pow16(2) == 0x100,
        pow16(3) == 0x1000,
        pow16(4) == 0x10000,
        pow16(5) == 0x100000,
        pow16(6) == 0x1000000,
        pow16(7) == 0x10000000,
        pow16(8) == 0x100000000,
{
    assert(pow16(0) == 1);
    assert(pow16(1) == 16);
    assert(pow16(2) == 0x100);
    assert(pow16(3) == 0x1000);
    assert(pow16(4) == 0x10000);
    assert(pow16(5) == 0x100000);
    assert(pow16(6) == 0x1000000);
    assert(pow16(7) == 0x10000000);
    assert(pow16(8) == 0x100000000);
}

proof fn lemma_hex_seq_len(v: nat, k: nat)
    ensures
        hex_seq(v, k).len() == k,
    decreases k,
{
    if k > 0 {
        lemma_hex_seq_len(v, (k - 1) as nat);
    }
}

/// Every digit the writer emits is a lowercase hex digit, and each position
/// holds the matching nibble of the value.
proof fn lemma_hex_seq_index(v: nat, k: nat, i: int)
    requires
        0 <= i < k,
    ensures
        hex_seq(v, k).len() == k,
        hex_seq(v, k)[i] == hex_char((v / pow16((k - 1 - i) as nat)) % 16),
        is_lower_hex(hex_seq(v, k)[i]),
    decreases k,
{
    lemma_hex_seq_len(v, k);
    lemma_hex_seq_len(v, (k - 1) as nat);
    if i == 0 {
        assert(hex_seq(v, k)[0] == hex_char((v / pow16((k - 1) as nat)) % 16));
    } else {
        lemma_hex_seq_index(v, (k - 1) as nat, i - 1);
        assert(hex_seq(v, k)[i] == hex_seq(v, (k - 1) as nat)[i - 1]);
    }
    assert(is_lower_hex(hex_char((v / pow16((k - 1 - i) as nat)) % 16)));
}

/// Reading back the numeral of `v` yields `v`'s residue; for values that fit
/// in `k` digits, `v` itself.
proof fn lemma_hex_round_trip(v: nat, k: nat)
    ensures
        parse_hex(hex_seq(v, k)) == Option::Some((v % pow16(k)) as nat),
    decreases k,
{
    if k == 0 {
        assert(v % pow16(0) == 0) by {
            assert(pow16(0) == 1);
        }
    } else {
        let km = (k - 1) as nat;
        let m = (v / pow16(km)) % 16;
        lemma_hex_round_trip(v, km);
        lemma_hex_seq_len(v, km);
        let s = hex_seq(v, k);
        assert(s[0] == hex_char(m));
        assert(s.skip(1) =~= hex_seq(v, km));
        assert(is_lower_hex(hex_char(m)) && hex_val(hex_char(m)) == m);
        assert(parse_hex(s) == Option::Some((m * pow16(km) + v % pow16(km)) as nat));
        lemma_pow16_pos(km);
        assert(v % (pow16(km) * 16) == pow16(km) * ((v / pow16(km)) % 16) + v % pow16(km)) by {
            lemma_mod_breakdown(v as int, pow16(km) as int, 16);
        }
        assert(pow16(k) == pow16(km) * 16);
    }
}

proof fn lemma_pow16_pos(k: nat)
    ensures
        pow16(k) >= 1,
    decreases k,
{
    if k > 0 {
        lemma_pow16_pos((k - 1) as nat);
    }
}

/// Appending one more digit multiplies the parsed value by sixteen.
proof fn lemma_parse_hex_snoc(s: Seq<u8>, c: u8)
    requires
        parse_hex(s) is Some,
        is_lower_hex(c),
    ensures
        parse_hex(s.push(c)) == Option::Some(
            (parse_hex(s).unwrap() * 16 + hex_val(c)) as nat,
        ),
    decreases s.len(),
{
    if s.len() == 0 {
        assert(s.push(c)[0] == c);
        assert(s.push(c).skip(1) =~= Seq::<u8>::empty());
        assert(parse_hex(Seq::<u8>::empty()) == Option::Some(0 as nat));
        assert(parse_hex(s.push(c)) == Option::Some((hex_val(c) * pow16(0) + 0) as nat));
        assert(pow16(0) == 1);
        assert(hex_val(c) * pow16(0) == hex_val(c)) by (nonlinear_arith)
            requires
                pow16(0) == 1,
        {
        }
    } else {
        let t = s.skip(1);
        lemma_parse_hex_snoc(t, c);
        assert(s.push(c)[0] == s[0]);
        assert(s.push(c).skip(1) =~= t.push(c));
        let d0 = hex_val(s[0]);
        let n = (s.len() - 1) as nat;
        let vt = parse_hex(t).unwrap();
        assert(parse_hex(s.push(c)) == Option::Some(
            (d0 * pow16(s.len() as nat) + (vt * 16 + hex_val(c))) as nat,
        ));
        assert(parse_hex(s).unwrap() == d0 * pow16(n) + vt);
        assert(pow16(s.len() as nat) == 16 * pow16(n));
        assert(d0 * (16 * pow16(n)) == (d0 * pow16(n)) * 16) by (nonlinear_arith);
        assert((d0 * pow16(n) + vt) * 16 == (d0 * pow16(n)) * 16 + vt * 16) by (nonlinear_arith);
    }
}

/// Append the 8-digit lowercase hex form of `x` to `v`.
fn push_hex8(v: &mut Vec<u8>, x: u32)
    ensures
        final(v)@ == old(v)@ + hex8(x as nat),
{
    proof {
        lemma_pow16_values();
        lemma_hex_seq_len(x as nat, 8);
    }
    let mut divisor: u32 = 0x10000000;
    let mut j: usize = 0;
    while j < 8
        invariant
            0 <= j <= 8,
            j < 8 ==> divisor == pow16((7 - j) as nat),
            v@ == old(v)@ + hex8(x as nat).take(j as int),
        decreases 8 - j,
    {
        proof {
            lemma_pow16_values();
            lemma_hex_seq_index(x as nat, 8, j as int);
        }
        let d: u32 = (x / divisor) % 16;
        let c: u8 = if d < 10 {
            (0x30 + d) as u8
        } else {
            (0x57 + d) as u8
        };
        proof {
            assert(c == hex_char((x as nat / pow16((7 - j) as nat)) % 16));
            assert(hex8(x as nat).take(j + 1) =~= hex8(x as nat).take(j as int).push(
                hex8(x as nat)[j as int],
            ));
        }
        v.push(c);
        if j < 7 {
            divisor = divisor / 16;
            proof {
                lemma_pow16_values();
            }
        }
        j = j + 1;
    }
    proof {
        assert(hex8(x as nat).take(8) =~= hex8(x as nat));
    }
}

/// Parse the 8-digit lowercase hex field at `pos`; the executable face of
/// `parse_hex` on that subrange.
fn parse_hex8_at(b: &Vec<u8>, pos: usize) -> (r: Option<u32>)
    requires
        pos + 8 <= b@.len(),
    ensures
        match r {
            Option::Some(x) => parse_hex(b@.subrange(pos as int, pos + 8)) == Option::Some(
                x as nat,
            ),
            Option::None => parse_hex(b@.subrange(pos as int, pos + 8)) is None,
        },
{
    let ghost s = b@.subrange(pos as int, pos + 8);
    let blen = b.len();
    proof {
        lemma_pow16_values();
        assert(s.take(0) =~= Seq::<u8>::empty());
    }
    let mut acc: u32 = 0;
    let mut j: usize = 0;
    while j < 8
        invariant
            0 <= j <= 8,
            pos + 8 <= blen,
            blen == b@.len(),
            s == b@.subrange(pos as int, pos + 8),
            parse_hex(s.take(j as int)) == Option::Some(acc as nat),
            acc < pow16(j as nat),
        decreases 8 - j,
    {
        let c = b[pos + j];
        proof {
            assert(s[j as int] == c);
        }
        let is_digit = 0x30 <= c && c <= 0x39;
        let is_alpha = 0x61 <= c && c <= 0x66;
        if !is_digit && !is_alpha {
            proof {
                lemma_parse_hex_prefix_bad(s, j as int);
            }
            return Option::None;
        }
        let d: u8 = if is_digit {
            c - 0x30
        } else {
            c - 0x57
        };
        proof {
            lemma_pow16_values();
            assert(acc < pow16(j as nat));
            assert(pow16(j as nat) <= pow16(7)) by {
                lemma_pow16_mono(j as nat, 7);
            }
            assert(s.take(j + 1) =~= s.take(j as int).push(c));
            lemma_parse_hex_snoc(s.take(j as int), c);
        }
        acc = acc * 16 + (d as u32);
        j = j + 1;
    }
    proof {
        assert(s.take(8) =~= s);
    }
    Option::Some(acc)
}

proof fn lemma_pow16_mono(a: nat, b: nat)
    requires
        a <= b,
    ensures
        pow16(a) <= pow16(b),
    decreases b,
{
    if a < b {
        lemma_pow16_mono(a, (b - 1) as nat);
        lemma_pow16_pos((b - 1) as nat);
    }
}

/// A numeral with a bad digit anywhere does not parse.
proof fn lemma_parse_hex_prefix_bad(s: Seq<u8>, j: int)
    requires
        0 <= j < s.len(),
        !is_lower_hex(s[j]),
    ensures
        parse_hex(s) is None,
    decreases s.len(),
{
    if s.len() > 0 {
        if j == 0 {
        } else {
            lemma_parse_hex_prefix_bad(s.skip(1), j - 1);
        }
    }
}

/// Bytes needed to round `n` up to a multiple of four.
pub open spec fn pad4(n: int) -> int {
    if n % 4 == 0 {
        0
    } else {
        4 - n % 4
    }
}

pub open spec fn zeros(n: int) -> Seq<u8> {
    Seq::new(n as nat, |i: int| 0u8)
}

/// The 110-byte entry header: magic, then ino, mode, uid, gid, nlink, mtime,
/// filesize, devmajor, devminor, rdevmajor, rdevminor, namesize, check, each
/// an 8-digit lowercase hex field.  The fields this system never sets are
/// zero; namesize counts the name's NUL terminator.
pub open spec fn header_spec(
    ino: nat,
    mode: nat,
    uid: nat,
    nlink: nat,
    filesize: nat,
    namesize: nat,
) -> Seq<u8> {
    magic() + hex8(ino) + hex8(mode) + hex8(uid) + hex8(0) + hex8(nlink) + hex8(0) + hex8(filesize)
        + hex8(0) + hex8(0) + hex8(0) + hex8(0) + hex8(namesize) + hex8(0)
}

/// One whole entry: header, NUL-terminated name padded to four bytes past the
/// header, then the payload padded to four bytes.
pub open spec fn entry_spec(
    name: Seq<u8>,
    data: Seq<u8>,
    ino: nat,
    mode: nat,
    uid: nat,
    nlink: nat,
) -> Seq<u8> {
    header_spec(ino, mode, uid, nlink, data.len(), (name.len() + 1) as nat) + name + seq![0u8]
        + zeros(pad4((110 + name.len() + 1) as int)) + data + zeros(pad4(data.len() as int))
}

pub open spec fn entry_len(name: Seq<u8>, data: Seq<u8>) -> int {
    110 + name.len() + 1 + pad4((110 + name.len() + 1) as int) + data.len() + pad4(data.len() as int)
}

/// A container as this system writes it: the record entry, the payload
/// entry, and the trailer.  Content entries carry owner 1000 and a regular
/// file mode; the trailer carries only its link count, as the stream
/// format prescribes.
pub open spec fn container_spec(
    rname: Seq<u8>,
    rdata: Seq<u8>,
    pname: Seq<u8>,
    pdata: Seq<u8>,
) -> Seq<u8> {
    entry_spec(rname, rdata, 0, 0o100644, 1000, 1) + entry_spec(pname, pdata, 1, 0o100644, 1000, 1)
        + entry_spec(trailer_name(), Seq::empty(), 0, 0, 0, 1)
}

/// The hex field `f` (of 13) of the header at `pos`.
pub open spec fn field_at(b: Seq<u8>, pos: int, f: int) -> Option<nat> {
    parse_hex(b.subrange(pos + 6 + 8 * f, pos + 14 + 8 * f))
}

pub open spec fn fields_ok(b: Seq<u8>, pos: int) -> bool {
    forall|f: int| 0 <= f < 13 ==> (#[trigger] field_at(b, pos, f)) is Some
}

/// Parse the entry that starts at `pos`: its name, its payload, and the
/// offset of the next entry.  `None` on a short stream, a bad magic, a
/// non-hex header field, a zero namesize, or a missing NUL terminator.
pub open spec fn parse_entry_at(b: Seq<u8>, pos: int) -> Option<(Seq<u8>, Seq<u8>, int)> {
    if !(0 <= pos && pos + 110 <= b.len()) {
        Option::None
    } else if b.subrange(pos, pos + 6) != magic() {
        Option::None
    } else if !fields_ok(b, pos) {
        Option::None
    } else {
        let fs = field_at(b, pos, 6).unwrap() as int;
        let ns = field_at(b, pos, 11).unwrap() as int;
        if ns < 1 {
            Option::None
        } else {
            let name_end = pos + 110 + ns - 1;
            let data_start = pos + 110 + ns + pad4((110 + ns) as int);
            let next = data_start + fs + pad4(fs);
            if next > b.len() {
                Option::None
            } else if b[name_end] != 0 {
                Option::None
            } else {
                Option::Some(
                    (
                        b.subrange(pos + 110, name_end),
                        b.subrange(data_start, data_start + fs),
                        next,
                    ),
                )
            }
        }
    }
}

/// Read entries from `pos` until the trailer: the sequence of (name, payload)
/// pairs before it.  `None` if any entry is malformed or the stream ends
/// without a trailer.
pub open spec fn parse_entries_at(b: Seq<u8>, pos: int) -> Option<Seq<(Seq<u8>, Seq<u8>)>>
    decreases b.len() - pos,
{
    match parse_entry_at(b, pos) {
        Option::None => Option::None,
        Option::Some(e) => if e.0 == trailer_name() {
            Option::Some(Seq::empty())
        } else if pos < e.2 && e.2 <= b.len() {
            match parse_entries_at(b, e.2) {
                Option::Some(rest) => Option::Some(seq![(e.0, e.1)] + rest),
                Option::None => Option::None,
            }
        } else {
            Option::None
        },
    }
}

proof fn lemma_hex8_len(v: nat)
    ensures
        hex8(v).len() == 8,
{
    lemma_hex_seq_len(v, 8);
}

proof fn lemma_header_len(ino: nat, mode: nat, uid: nat, nlink: nat, fs: nat, ns: nat)
    ensures
        header_spec(ino, mode, uid, nlink, fs, ns).len() == 110,
{
    lemma_hex8_len(ino);
    lemma_hex8_len(mode);
    lemma_hex8_len(uid);
    lemma_hex8_len(nlink);
    lemma_hex8_len(fs);
    lemma_hex8_len(ns);
    lemma_hex8_len(0);
}

/// An entry's byte form is `entry_len` bytes long.
proof fn lemma_entry_spec_len(
    name: Seq<u8>,
    data: Seq<u8>,
    ino: nat,
    mode: nat,
    uid: nat,
    nlink: nat,
)
    ensures
        entry_spec(name, data, ino, mode, uid, nlink).len() == entry_len(name, data),
        111 <= entry_len(name, data),
        0 <= pad4((110 + name.len() + 1) as int) < 4,
        0 <= pad4(data.len() as int) < 4,
{
    lemma_header_len(ino, mode, uid, nlink, data.len(), (name.len() + 1) as nat);
}

/// An entry costs at most 117 bytes beyond its name and payload.
pub proof fn lemma_entry_len_bound(name: Seq<u8>, data: Seq<u8>)
    ensures
        111 <= entry_len(name, data) <= 117 + name.len() + data.len(),
{
}

/// Append `n` zero bytes.
fn push_zeros(out: &mut Vec<u8>, n: usize)
    requires
        old(out)@.len() + n <= usize::MAX,
    ensures
        final(out)@ == old(out)@ + zeros(n as int),
{
    let mut z: usize = 0;
    while z < n
        invariant
            0 <= z <= n,
            out@ == old(out)@ + zeros(z as int),
        decreases n - z,
    {
        out.push(0);
        proof {
            assert(out@ =~= old(out)@ + zeros(z + 1));
        }
        z = z + 1;
    }
}

/// Append one entry in the container's byte form.
#[verifier::rlimit(60)]
fn write_entry(out: &mut Vec<u8>, name: &Vec<u8>, data: &Vec<u8>, ino: u32, mode: u32, uid: u32, nlink: u32)
    requires
        name@.len() + 1 <= 0xffffffff,
        data@.len() <= 0xffffffff,
        old(out)@.len() + entry_len(name@, data@) <= usize::MAX,
    ensures
        final(out)@ == old(out)@ + entry_spec(
            name@,
            data@,
            ino as nat,
            mode as nat,
            uid as nat,
            nlink as nat,
        ),
{
    proof {
        lemma_hex8_len(ino as nat);
        lemma_hex8_len(mode as nat);
        lemma_hex8_len(uid as nat);
        lemma_hex8_len(nlink as nat);
        lemma_hex8_len(data@.len());
        lemma_hex8_len((name@.len() + 1) as nat);
        lemma_hex8_len(0);
    }
    out.push(0x30);
    out.push(0x37);
    out.push(0x30);
    out.push(0x37);
    out.push(0x30);
    out.push(0x31);
    push_hex8(out, ino);
    push_hex8(out, mode);
    push_hex8(out, uid);
    push_hex8(out, 0);
    push_hex8(out, nlink);
    push_hex8(out, 0);
    let fs: u32 = data.len() as u32;
    push_hex8(out, fs);
    push_hex8(out, 0);
    push_hex8(out, 0);
    push_hex8(out, 0);
    push_hex8(out, 0);
    let ns: u32 = (name.len() + 1) as u32;
    push_hex8(out, ns);
    push_hex8(out, 0);
    proof {
        assert(out@ =~= old(out)@ + header_spec(
            ino as nat,
            mode as nat,
            uid as nat,
            nlink as nat,
            data@.len(),
            (name@.len() + 1) as nat,
        ));
    }
    let ghost after_header = out@;
    out.extend_from_slice(name.as_slice());
    out.push(0);
    let hn: usize = 110 + name.len() + 1;
    let rem: usize = hn % 4;
    let npad: usize = if rem == 0 {
        0
    } else {
        4 - rem
    };
    push_zeros(out, npad);
    let ghost after_name = out@;
    proof {
        assert(after_name =~= after_header + name@ + seq![0u8] + zeros(
            pad4((110 + name@.len() + 1) as int),
        ));
    }
    out.extend_from_slice(data.as_slice());
    let drem: usize = data.len() % 4;
    let dpad: usize = if drem == 0 {
        0
    } else {
        4 - drem
    };
    push_zeros(out, dpad);
    proof {
        assert(out@ =~= after_name + data@ + zeros(pad4(data@.len() as int)));
        assert(out@ =~= old(out)@ + entry_spec(
            name@,
            data@,
            ino as nat,
            mode as nat,
            uid as nat,
            nlink as nat,
        ));
    }
}

/// Write a whole container: the record entry, the payload entry, the trailer.
pub fn write_container(rname: &Vec<u8>, rdata: &Vec<u8>, pname: &Vec<u8>, pdata: &Vec<u8>) -> (out:
    Vec<u8>)
    requires
        rname@.len() + 1 <= 0xffffffff,
        rdata@.len() <= 0xffffffff,
        pname@.len() + 1 <= 0xffffffff,
        pdata@.len() <= 0xffffffff,
        entry_len(rname@, rdata@) + entry_len(pname@, pdata@) + 124 <= usize::MAX,
    ensures
        out@ == container_spec(rname@, rdata@, pname@, pdata@),
{
    let mut out: Vec<u8> = Vec::new();
    proof {
        lemma_entry_spec_len(rname@, rdata@, 0, 0o100644, 1000, 1);
        lemma_entry_spec_len(pname@, pdata@, 1, 0o100644, 1000, 1);
    }
    write_entry(&mut out, rname, rdata, 0, 0o100644, 1000, 1);
    write_entry(&mut out, pname, pdata, 1, 0o100644, 1000, 1);
    let tn = trailer_name_bytes();
    let empty: Vec<u8> = Vec::new();
    proof {
        lemma_entry_spec_len(trailer_name(), Seq::<u8>::empty(), 0, 0, 0, 1);
        assert(entry_len(trailer_name(), Seq::<u8>::empty()) == 124);
    }
    write_entry(&mut out, &tn, &empty, 0, 0, 0, 1);
    proof {
        assert(out@ =~= container_spec(rname@, rdata@, pname@, pdata@));
    }
    out
}

/// Parse the entry at `pos`: the executable face of `parse_entry_at`.
fn read_entry_at(b: &Vec<u8>, pos: usize) -> (r: Option<(Vec<u8>, Vec<u8>, usize)>)
    requires
        pos <= b@.len(),
    ensures
        match r {
            Option::Some(e) => parse_entry_at(b@, pos as int) == Option::Some(
                (e.0@, e.1@, e.2 as int),
            ) && pos < e.2 <= b@.len(),
            Option::None => parse_entry_at(b@, pos as int) is None,
        },
{
    let blen = b.len();
    if blen - pos < 110 {
        return Option::None;
    }
    let magic_ok = b[pos] == 0x30 && b[pos + 1] == 0x37 && b[pos + 2] == 0x30 && b[pos + 3] == 0x37
        && b[pos + 4] == 0x30 && b[pos + 5] == 0x31;
    proof {
        let m = b@.subrange(pos as int, pos + 6);
        assert(m[0] == b@[pos as int]);
        assert(m[1] == b@[pos + 1]);
        assert(m[2] == b@[pos + 2]);
        assert(m[3] == b@[pos + 3]);
        assert(m[4] == b@[pos + 4]);
        assert(m[5] == b@[pos + 5]);
        if magic_ok {
            assert(m =~= magic());
        } else {
            assert(m != magic());
        }
    }
    if !magic_ok {
        return Option::None;
    }
    let mut fs: u32 = 0;
    let mut ns: u32 = 0;
    let mut f: usize = 0;
    while f < 13
        invariant
            0 <= f <= 13,
            pos + 110 <= blen,
            blen == b@.len(),
            forall|g: int| 0 <= g < f ==> (#[trigger] field_at(b@, pos as int, g)) is Some,
            f > 6 ==> field_at(b@, pos as int, 6) == Option::Some(fs as nat),
            f > 11 ==> field_at(b@, pos as int, 11) == Option::Some(ns as nat),
        decreases 13 - f,
    {
        let off = pos + 6 + 8 * f;
        let x = match parse_hex8_at(b, off) {
            Option::Some(x) => x,
            Option::None => {
                proof {
                    assert(!((field_at(b@, pos as int, f as int)) is Some));
                    assert(!fields_ok(b@, pos as int));
                }
                return Option::None;
            },
        };
        if f == 6 {
            fs = x;
        }
        if f == 11 {
            ns = x;
        }
        f = f + 1;
    }
    proof {
        assert(fields_ok(b@, pos as int));
    }
    let ghost fsv = fs as int;
    let ghost nsv = ns as int;
    let ghost next_spec = pos + 110 + nsv + pad4(110 + nsv) + fsv + pad4(fsv);
    proof {
        assert(0 <= pad4(110 + nsv) < 4);
        assert(0 <= pad4(fsv) < 4);
    }
    if ns < 1 {
        return Option::None;
    }
    let ns_us: usize = ns as usize;
    if blen - (pos + 110) < ns_us {
        proof {
            assert(next_spec > blen);
        }
        return Option::None;
    }
    let hn_end: usize = pos + 110 + ns_us;
    let rem: usize = (110 + ns_us) % 4;
    let npad: usize = if rem == 0 {
        0
    } else {
        4 - rem
    };
    proof {
        assert(npad == pad4(110 + nsv));
    }
    if blen - hn_end < npad {
        proof {
            assert(next_spec > blen);
        }
        return Option::None;
    }
    let data_start: usize = hn_end + npad;
    let fs_us: usize = fs as usize;
    if blen - data_start < fs_us {
        proof {
            assert(next_spec > blen);
        }
        return Option::None;
    }
    let data_end: usize = data_start + fs_us;
    let drem: usize = fs_us % 4;
    let dpad: usize = if drem == 0 {
        0
    } else {
        4 - drem
    };
    proof {
        assert(dpad == pad4(fsv));
    }
    if blen - data_end < dpad {
        proof {
            assert(next_spec > blen);
        }
        return Option::None;
    }
    let next: usize = data_end + dpad;
    if b[hn_end - 1] != 0 {
        return Option::None;
    }
    let name = vstd::slice::slice_to_vec(
        vstd::slice::slice_subrange(b.as_slice(), pos + 110, hn_end - 1),
    );
    let data = vstd::slice::slice_to_vec(
        vstd::slice::slice_subrange(b.as_slice(), data_start, data_end),
    );
    proof {
        assert(next == next_spec);
        assert(parse_entry_at(b@, pos as int) == Option::Some((name@, data@, next as int)));
    }
    Option::Some((name, data, next))
}

/// The (name, payload) pairs a vector of byte-vector pairs stands for.
pub open spec fn entries_view(v: Seq<(Vec<u8>, Vec<u8>)>) -> Seq<(Seq<u8>, Seq<u8>)> {
    Seq::new(v.len(), |i: int| (v[i].0@, v[i].1@))
}

/// Read a whole container: every entry before the trailer, in order.
///
/// `Ok` holds exactly the entries `parse_entries_at` yields; a malformed or
/// trailer-less stream is `ContainerCorrupt`.
pub fn read_container(b: &Vec<u8>) -> (r: Result<Vec<(Vec<u8>, Vec<u8>)>, Error>)
    ensures
        match r {
            Ok(entries) => parse_entries_at(b@, 0) == Option::Some(entries_view(entries@)),
            Err(e) => e == Error::ContainerCorrupt && parse_entries_at(b@, 0) is None,
        },
{
    let blen = b.len();
    let tn = trailer_name_bytes();
    let mut acc: Vec<(Vec<u8>, Vec<u8>)> = Vec::new();
    let mut pos: usize = 0;
    proof {
        assert(entries_view(acc@) =~= Seq::<(Seq<u8>, Seq<u8>)>::empty());
    }
    loop
        invariant
            pos <= blen,
            blen == b@.len(),
            tn@ == trailer_name(),
            (match parse_entries_at(b@, pos as int) {
                Option::Some(rest) => parse_entries_at(b@, 0) == Option::Some(
                    entries_view(acc@) + rest,
                ),
                Option::None => parse_entries_at(b@, 0) is None,
            }),
        decreases blen - pos,
    {
        let e = match read_entry_at(b, pos) {
            Option::Some(e) => e,
            Option::None => {
                return Err(Error::ContainerCorrupt);
            },
        };
        let (name, data, next) = e;
        let is_trailer = name == tn;
        proof {
            if is_trailer {
                assert(name@.len() == trailer_name().len() && forall|i: int|
                    0 <= i < name@.len() ==> name@[i] == trailer_name()[i]);
                assert(name@ =~= trailer_name());
            } else {
                if name@ == trailer_name() {
                    assert(name =~= tn);
                    assert(false);
                }
            }
        }
        if is_trailer {
            proof {
                assert(parse_entries_at(b@, pos as int) == Option::Some(
                    Seq::<(Seq<u8>, Seq<u8>)>::empty(),
                ));
                assert(entries_view(acc@) + Seq::<(Seq<u8>, Seq<u8>)>::empty() =~= entries_view(
                    acc@,
                ));
            }
            return Ok(acc);
        }
        let ghost acc_old = acc@;
        acc.push((name, data));
        proof {
            assert(entries_view(acc@) =~= entries_view(acc_old).push(
                (acc@[acc@.len() - 1].0@, acc@[acc@.len() - 1].1@),
            ));
            match parse_entries_at(b@, next as int) {
                Option::Some(rest) => {
                    assert(entries_view(acc_old) + (seq![
                        (acc@[acc@.len() - 1].0@, acc@[acc@.len() - 1].1@),
                    ] + rest) =~= entries_view(acc@) + rest);
                },
                Option::None => {},
            }
        }
        pos = next;
    }
}

/// Each 8-byte region of a header is exactly the hex field written there.
#[verifier::rlimit(100)]
proof fn lemma_header_subranges(ino: nat, mode: nat, uid: nat, nlink: nat, fs: nat, ns: nat)
    ensures
        header_spec(ino, mode, uid, nlink, fs, ns).subrange(0, 6) == magic(),
        header_spec(ino, mode, uid, nlink, fs, ns).subrange(6, 14) == hex8(ino as nat),
        header_spec(ino, mode, uid, nlink, fs, ns).subrange(14, 22) == hex8(mode as nat),
        header_spec(ino, mode, uid, nlink, fs, ns).subrange(22, 30) == hex8(uid as nat),
        header_spec(ino, mode, uid, nlink, fs, ns).subrange(30, 38) == hex8(0 as nat),
        header_spec(ino, mode, uid, nlink, fs, ns).subrange(38, 46) == hex8(nlink as nat),
        header_spec(ino, mode, uid, nlink, fs, ns).subrange(46, 54) == hex8(0 as nat),
        header_spec(ino, mode, uid, nlink, fs, ns).subrange(54, 62) == hex8(fs as nat),
        header_spec(ino, mode, uid, nlink, fs, ns).subrange(62, 70) == hex8(0 as nat),
        header_spec(ino, mode, uid, nlink, fs, ns).subrange(70, 78) == hex8(0 as nat),
        header_spec(ino, mode, uid, nlink, fs, ns).subrange(78, 86) == hex8(0 as nat),
        header_spec(ino, mode, uid, nlink, fs, ns).subrange(86, 94) == hex8(0 as nat),
        header_spec(ino, mode, uid, nlink, fs, ns).subrange(94, 102) == hex8(ns as nat),
        header_spec(ino, mode, uid, nlink, fs, ns).subrange(102, 110) == hex8(0 as nat),
{
    let hdr = header_spec(ino, mode, uid, nlink, fs, ns);
    lemma_header_len(ino, mode, uid, nlink, fs, ns);
    lemma_hex8_len(ino);
    lemma_hex8_len(mode);
    lemma_hex8_len(uid);
    lemma_hex8_len(nlink);
    lemma_hex8_len(fs);
    lemma_hex8_len(ns);
    lemma_hex8_len(0);
    assert(hdr.subrange(0, 6) =~= magic());
    assert(hdr.subrange(30, 38) =~= hex8(0 as nat));
    assert(hdr.subrange(46, 54) =~= hex8(0 as nat));
    assert(hdr.subrange(62, 70) =~= hex8(0 as nat));
    assert(hdr.subrange(70, 78) =~= hex8(0 as nat));
    assert(hdr.subrange(78, 86) =~= hex8(0 as nat));
    assert(hdr.subrange(86, 94) =~= hex8(0 as nat));
    assert(hdr.subrange(102, 110) =~= hex8(0 as nat));
    assert(hdr.subrange(6, 14) =~= hex8(ino as nat));
    assert(hdr.subrange(14, 22) =~= hex8(mode as nat));
    assert(hdr.subrange(22, 30) =~= hex8(uid as nat));
    assert(hdr.subrange(38, 46) =~= hex8(nlink as nat));
    assert(hdr.subrange(54, 62) =~= hex8(fs as nat));
    assert(hdr.subrange(94, 102) =~= hex8(ns as nat));
}

/// A subrange of `b` equals the matching subrange of the entry bytes laid
/// down at `pos`.
proof fn lemma_sub_eq(b: Seq<u8>, pos: int, el: int, e: Seq<u8>, x: int, y: int, t: Seq<u8>)
    requires
        0 <= pos,
        0 <= x <= y <= el,
        pos + el <= b.len(),
        b.subrange(pos, pos + el) == e,
        e.len() == el,
        e.subrange(x, y) == t,
    ensures
        b.subrange(pos + x, pos + y) == t,
{
    assert(b.subrange(pos + x, pos + y) =~= b.subrange(pos, pos + el).subrange(x, y));
}

/// A written entry parses back to exactly its name, its payload, and its
/// length.
#[verifier::rlimit(100)]
proof fn lemma_parse_entry(
    b: Seq<u8>,
    pos: int,
    name: Seq<u8>,
    data: Seq<u8>,
    ino: nat,
    mode: nat,
    uid: nat,
    nlink: nat,
)
    requires
        0 <= pos,
        pos + entry_len(name, data) <= b.len(),
        b.subrange(pos, pos + entry_len(name, data)) == entry_spec(
            name,
            data,
            ino,
            mode,
            uid,
            nlink,
        ),
        name.len() + 1 <= 0xffffffff,
        data.len() <= 0xffffffff,
        ino <= 0xffffffff,
        mode <= 0xffffffff,
        uid <= 0xffffffff,
        nlink <= 0xffffffff,
    ensures
        parse_entry_at(b, pos) == Option::Some((name, data, pos + entry_len(name, data))),
{
    let e = entry_spec(name, data, ino, mode, uid, nlink);
    let el = entry_len(name, data);
    let fsv = data.len() as nat;
    let nsv = (name.len() + 1) as nat;
    lemma_entry_spec_len(name, data, ino, mode, uid, nlink);
    let hdr = header_spec(ino, mode, uid, nlink, fsv, nsv);
    lemma_header_len(ino, mode, uid, nlink, fsv, nsv);
    lemma_hex8_len(ino);
    lemma_hex8_len(mode);
    lemma_hex8_len(uid);
    lemma_hex8_len(nlink);
    lemma_hex8_len(fsv);
    lemma_hex8_len(nsv);
    lemma_hex8_len(0);
    lemma_pow16_values();
    assert(e.subrange(0, 110) =~= hdr);
    lemma_header_subranges(ino, mode, uid, nlink, fsv, nsv);
    assert(e.subrange(0, 6) =~= e.subrange(0, 110).subrange(0, 6));
    lemma_sub_eq(b, pos, el, e, 0, 6, magic());
    assert(e.subrange(6, 14) =~= e.subrange(0, 110).subrange(6, 14));
    lemma_sub_eq(b, pos, el, e, 6, 14, hex8(ino));
    assert(e.subrange(14, 22) =~= e.subrange(0, 110).subrange(14, 22));
    lemma_sub_eq(b, pos, el, e, 14, 22, hex8(mode));
    assert(e.subrange(22, 30) =~= e.subrange(0, 110).subrange(22, 30));
    lemma_sub_eq(b, pos, el, e, 22, 30, hex8(uid));
    assert(e.subrange(30, 38) =~= e.subrange(0, 110).subrange(30, 38));
    lemma_sub_eq(b, pos, el, e, 30, 38, hex8(0 as nat));
    assert(e.subrange(38, 46) =~= e.subrange(0, 110).subrange(38, 46));
    lemma_sub_eq(b, pos, el, e, 38, 46, hex8(nlink));
    assert(e.subrange(46, 54) =~= e.subrange(0, 110).subrange(46, 54));
    lemma_sub_eq(b, pos, el, e, 46, 54, hex8(0 as nat));
    assert(e.subrange(54, 62) =~= e.subrange(0, 110).subrange(54, 62));
    lemma_sub_eq(b, pos, el, e, 54, 62, hex8(fsv));
    assert(e.subrange(62, 70) =~= e.subrange(0, 110).subrange(62, 70));
    lemma_sub_eq(b, pos, el, e, 62, 70, hex8(0 as nat));
    assert(e.subrange(70, 78) =~= e.subrange(0, 110).subrange(70, 78));
    lemma_sub_eq(b, pos, el, e, 70, 78, hex8(0 as nat));
    assert(e.subrange(78, 86) =~= e.subrange(0, 110).subrange(78, 86));
    lemma_sub_eq(b, pos, el, e, 78, 86, hex8(0 as nat));
    assert(e.subrange(86, 94) =~= e.subrange(0, 110).subrange(86, 94));
    lemma_sub_eq(b, pos, el, e, 86, 94, hex8(0 as nat));
    assert(e.subrange(94, 102) =~= e.subrange(0, 110).subrange(94, 102));
    lemma_sub_eq(b, pos, el, e, 94, 102, hex8(nsv));
    assert(e.subrange(102, 110) =~= e.subrange(0, 110).subrange(102, 110));
    lemma_sub_eq(b, pos, el, e, 102, 110, hex8(0 as nat));
    lemma_hex_round_trip(ino, 8);
    lemma_hex_round_trip(mode, 8);
    lemma_hex_round_trip(uid, 8);
    lemma_hex_round_trip(nlink, 8);
    lemma_hex_round_trip(fsv, 8);
    lemma_hex_round_trip(nsv, 8);
    lemma_hex_round_trip(0, 8);
    assert(ino % pow16(8) == ino);
    assert(mode % pow16(8) == mode);
    assert(uid % pow16(8) == uid);
    assert(nlink % pow16(8) == nlink);
    assert(fsv % pow16(8) == fsv);
    assert(nsv % pow16(8) == nsv);
    assert(0 as nat % pow16(8) == 0);
    assert(field_at(b, pos, 0) == Option::Some(ino));
    assert(field_at(b, pos, 1) == Option::Some(mode));
    assert(field_at(b, pos, 2) == Option::Some(uid));
    assert(field_at(b, pos, 3) == Option::Some(0 as nat));
    assert(field_at(b, pos, 4) == Option::Some(nlink));
    assert(field_at(b, pos, 5) == Option::Some(0 as nat));
    assert(field_at(b, pos, 6) == Option::Some(fsv));
    assert(field_at(b, pos, 7) == Option::Some(0 as nat));
    assert(field_at(b, pos, 8) == Option::Some(0 as nat));
    assert(field_at(b, pos, 9) == Option::Some(0 as nat));
    assert(field_at(b, pos, 10) == Option::Some(0 as nat));
    assert(field_at(b, pos, 11) == Option::Some(nsv));
    assert(field_at(b, pos, 12) == Option::Some(0 as nat));
    assert forall|f: int| 0 <= f < 13 implies (#[trigger] field_at(b, pos, f)) is Some by {
        if f == 0 {
        } else if f == 1 {
        } else if f == 2 {
        } else if f == 3 {
        } else if f == 4 {
        } else if f == 5 {
        } else if f == 6 {
        } else if f == 7 {
        } else if f == 8 {
        } else if f == 9 {
        } else if f == 10 {
        } else if f == 11 {
        } else {
        }
    }
    let nl = name.len() as int;
    assert(e.subrange(110, 110 + nl) =~= name);
    lemma_sub_eq(b, pos, el, e, 110, 110 + nl, name);
    assert(e[110 + nl] == 0);
    assert(b.subrange(pos, pos + el)[110 + nl] == b[pos + 110 + nl]);
    assert(b[pos + 110 + nl] == 0);
    let dso = 110 + nl + 1 + pad4(110 + nl + 1);
    assert(e.subrange(dso, dso + data.len() as int) =~= data);
    lemma_sub_eq(b, pos, el, e, dso, dso + data.len() as int, data);
    assert(parse_entry_at(b, pos) == Option::Some((name, data, pos + el)));
}

/// Round trip: a container written from two named byte strings reads back as
/// exactly those two entries, for every name and every content.
#[verifier::rlimit(100)]
pub proof fn lemma_container_round_trip(
    rname: Seq<u8>,
    rdata: Seq<u8>,
    pname: Seq<u8>,
    pdata: Seq<u8>,
)
    requires
        rname.len() + 1 <= 0xffffffff,
        rdata.len() <= 0xffffffff,
        pname.len() + 1 <= 0xffffffff,
        pdata.len() <= 0xffffffff,
        rname != trailer_name(),
        pname != trailer_name(),
    ensures
        parse_entries_at(container_spec(rname, rdata, pname, pdata), 0) == Option::Some(
            seq![(rname, rdata), (pname, pdata)],
        ),
{
    let b = container_spec(rname, rdata, pname, pdata);
    let e1 = entry_spec(rname, rdata, 0, 0o100644, 1000, 1);
    let e2 = entry_spec(pname, pdata, 1, 0o100644, 1000, 1);
    let e3 = entry_spec(trailer_name(), Seq::<u8>::empty(), 0, 0, 0, 1);
    lemma_entry_spec_len(rname, rdata, 0, 0o100644, 1000, 1);
    lemma_entry_spec_len(pname, pdata, 1, 0o100644, 1000, 1);
    lemma_entry_spec_len(trailer_name(), Seq::<u8>::empty(), 0, 0, 0, 1);
    let l1 = entry_len(rname, rdata);
    let l2 = entry_len(pname, pdata);
    let l3 = entry_len(trailer_name(), Seq::<u8>::empty());
    assert(b.len() == l1 + l2 + l3);

    assert(b.subrange(0, l1) =~= e1);
    lemma_parse_entry(b, 0, rname, rdata, 0, 0o100644, 1000, 1);
    assert(b.subrange(l1, l1 + l2) =~= e2);
    lemma_parse_entry(b, l1, pname, pdata, 1, 0o100644, 1000, 1);
    assert(b.subrange(l1 + l2, l1 + l2 + l3) =~= e3);
    lemma_parse_entry(b, l1 + l2, trailer_name(), Seq::<u8>::empty(), 0, 0, 0, 1);

    assert(parse_entries_at(b, l1 + l2) == Option::Some(Seq::<(Seq<u8>, Seq<u8>)>::empty()));
    assert(parse_entries_at(b, l1) == Option::Some(seq![(pname, pdata)])) by {
        assert(seq![(pname, pdata)] + Seq::<(Seq<u8>, Seq<u8>)>::empty() =~= seq![(pname, pdata)]);
    }
    assert(parse_entries_at(b, 0) == Option::Some(seq![(rname, rdata), (pname, pdata)])) by {
        assert(seq![(rname, rdata)] + seq![(pname, pdata)] =~= seq![
            (rname, rdata),
            (pname, pdata),
        ]);
    }
}

} // verus!
