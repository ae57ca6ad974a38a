//! Checkpoints: the on-disk snapshot format, resume validation, and
//! the image fingerprint.
//!
//! The snapshot is one JSON object with the fields `version`,
//! `timestamp`, `image_path`, `image_hash`, `position` and `state`.
//! The encoder is byte-exact against [`Checkpoint::enc_bytes`]; the
//! loader accepts a byte string only if the checkpoint it reads
//! re-encodes to exactly those bytes, so whatever loads is a faithful
//! rendering of the file. Writing, renaming and reading files happen
//! outside the library.

use vstd::prelude::*;
use vstd::string::StringSliceAdditionalSpecFns;
use crate::matcher::{sha256_of, spec_hex_chars, to_hex_string, sha256_digest, eq_bytes};

verus! {

/// The format version this library writes.
pub const CHECKPOINT_VERSION: u64 = 1;

/// A progress snapshot keyed by the image fingerprint.
#[derive(Debug)]
pub struct Checkpoint {
    pub version: u64,
    pub timestamp: u64,
    pub image_path: String,
    pub image_hash: String,
    pub position: u64,
    pub state: String,
}

/// The decimal digits of `n`, as bytes.
pub open spec fn spec_dec(n: int) -> Seq<u8>
    decreases n,
{
    if n < 10 {
        seq![(48 + if n >= 0 {
            n
        } else {
            0
        }) as u8]
    } else {
        spec_dec(n / 10).push((48 + n % 10) as u8)
    }
}

/// A string byte with backslash and quote escaped.
pub open spec fn spec_escaped(s: Seq<u8>) -> Seq<u8>
    decreases s.len(),
{
    if s.len() == 0 {
        Seq::empty()
    } else {
        let head: Seq<u8> = if s[0] == 34 {
            seq![92u8, 34u8]
        } else if s[0] == 92 {
            seq![92u8, 92u8]
        } else {
            seq![s[0]]
        };
        head + spec_escaped(s.drop_first())
    }
}

impl Checkpoint {
    /// Build a snapshot at `position` with the given wall-clock
    /// timestamp; the clock itself ticks outside the library.
    pub fn new(
        image_path: String,
        image_hash: String,
        position: u64,
        state: String,
        timestamp: u64,
    ) -> (r: Checkpoint)
        ensures
            r.version == CHECKPOINT_VERSION,
            r.timestamp == timestamp,
            r.image_path@ == image_path@,
            r.image_hash@ == image_hash@,
            r.position == position,
            r.state@ == state@,
    {
        Checkpoint {
            version: CHECKPOINT_VERSION,
            timestamp,
            image_path,
            image_hash,
            position,
            state,
        }
    }

    /// The exact bytes this checkpoint serialises to.
    pub open spec fn enc_bytes(&self) -> Seq<u8> {
        spec_lit_version() + (spec_dec(self.version as int) + (spec_lit_timestamp() + (spec_dec(
            self.timestamp as int,
        ) + (spec_lit_image_path() + (spec_escaped(vstd::utf8::encode_utf8(self.image_path@)) + (
        spec_lit_image_hash() + (spec_escaped(vstd::utf8::encode_utf8(self.image_hash@)) + (
        spec_lit_position() + (spec_dec(self.position as int) + (spec_lit_state() + (spec_escaped(
            vstd::utf8::encode_utf8(self.state@),
        ) + spec_lit_close())))))))))))
    }
}

/// `{"version":`
pub open spec fn spec_lit_version() -> Seq<u8> {
    seq![123u8, 34u8, 118u8, 101u8, 114u8, 115u8, 105u8, 111u8, 110u8, 34u8, 58u8]
}

/// `,"timestamp":`
pub open spec fn spec_lit_timestamp() -> Seq<u8> {
    seq![44u8, 34u8, 116u8, 105u8, 109u8, 101u8, 115u8, 116u8, 97u8, 109u8, 112u8, 34u8, 58u8]
}

/// `,"image_path":"`
pub open spec fn spec_lit_image_path() -> Seq<u8> {
    seq![
        44u8, 34u8, 105u8, 109u8, 97u8, 103u8, 101u8, 95u8, 112u8, 97u8, 116u8, 104u8, 34u8,
        58u8, 34u8,
    ]
}

/// `","image_hash":"`
pub open spec fn spec_lit_image_hash() -> Seq<u8> {
    seq![
        34u8, 44u8, 34u8, 105u8, 109u8, 97u8, 103u8, 101u8, 95u8, 104u8, 97u8, 115u8, 104u8,
        34u8, 58u8, 34u8,
    ]
}

/// `","position":`
pub open spec fn spec_lit_position() -> Seq<u8> {
    seq![34u8, 44u8, 34u8, 112u8, 111u8, 115u8, 105u8, 116u8, 105u8, 111u8, 110u8, 34u8, 58u8]
}

/// `,"state":"`
pub open spec fn spec_lit_state() -> Seq<u8> {
    seq![44u8, 34u8, 115u8, 116u8, 97u8, 116u8, 101u8, 34u8, 58u8, 34u8]
}

/// `"}`
pub open spec fn spec_lit_close() -> Seq<u8> {
    seq![34u8, 125u8]
}

/// Append the decimal digits of `n`.
fn push_decimal(out: &mut Vec<u8>, n: u64)
    ensures
        final(out)@ == old(out)@ + spec_dec(n as int),
    decreases n,
{
    if n < 10 {
        out.push(48 + n as u8);
        proof {
            assert(out@ =~= old(out)@ + spec_dec(n as int));
        }
    } else {
        let ghost mid: Seq<u8> = out@;
        push_decimal(out, n / 10);
        out.push(48 + (n % 10) as u8);
        proof {
            assert(out@ =~= old(out)@ + spec_dec(n as int));
        }
    }
}

/// Append `s` with backslash and quote escaped.
fn push_escaped(out: &mut Vec<u8>, s: &[u8])
    ensures
        final(out)@ == old(out)@ + spec_escaped(s@),
{
    let mut i: usize = 0;
    while i < s.len()
        invariant
            i <= s@.len(),
            out@ == old(out)@ + spec_escaped(s@.take(i as int)),
        decreases s@.len() - i,
    {
        let b: u8 = s[i];
        proof {
            lemma_escaped_snoc(s@.take(i as int), b);
            assert(s@.take(i + 1) =~= s@.take(i as int).push(b));
        }
        if b == 34 {
            out.push(92);
            out.push(34);
        } else if b == 92 {
            out.push(92);
            out.push(92);
        } else {
            out.push(b);
        }
        proof {
            assert(out@ =~= old(out)@ + spec_escaped(s@.take(i + 1)));
        }
        i = i + 1;
    }
    proof {
        assert(s@.take(s@.len() as int) =~= s@);
    }
}

proof fn lemma_escaped_snoc(s: Seq<u8>, b: u8)
    ensures
        spec_escaped(s.push(b)) == spec_escaped(s) + (if b == 34 {
            seq![92u8, 34u8]
        } else if b == 92 {
            seq![92u8, 92u8]
        } else {
            seq![b]
        }),
    decreases s.len(),
{
    let tail: Seq<u8> = if b == 34 {
        seq![92u8, 34u8]
    } else if b == 92 {
        seq![92u8, 92u8]
    } else {
        seq![b]
    };
    if s.len() == 0 {
        assert(s.push(b).drop_first() =~= Seq::<u8>::empty());
        assert(s.push(b)[0] == b);
        assert(spec_escaped(Seq::<u8>::empty()) == Seq::<u8>::empty());
        assert(spec_escaped(s.push(b)) =~= tail);
        assert(spec_escaped(s) + tail =~= tail);
    } else {
        assert(s.push(b).drop_first() =~= s.drop_first().push(b));
        assert(s.push(b)[0] == s[0]);
        lemma_escaped_snoc(s.drop_first(), b);
        let head: Seq<u8> = if s[0] == 34 {
            seq![92u8, 34u8]
        } else if s[0] == 92 {
            seq![92u8, 92u8]
        } else {
            seq![s[0]]
        };
        assert(spec_escaped(s.push(b)) == head + (spec_escaped(s.drop_first()) + tail));
        assert(head + (spec_escaped(s.drop_first()) + tail) =~= (head + spec_escaped(
            s.drop_first(),
        )) + tail);
    }
}

/// Append a fixed literal; each helper pins its exact bytes.
fn push_lit_version(out: &mut Vec<u8>)
    ensures
        final(out)@ == old(out)@ + spec_lit_version(),
{
    out.push(123);
    out.push(34);
    out.push(118);
    out.push(101);
    out.push(114);
    out.push(115);
    out.push(105);
    out.push(111);
    out.push(110);
    out.push(34);
    out.push(58);
    proof {
        assert(out@ =~= old(out)@ + spec_lit_version());
    }
}

fn push_lit_timestamp(out: &mut Vec<u8>)
    ensures
        final(out)@ == old(out)@ + spec_lit_timestamp(),
{
    out.push(44);
    out.push(34);
    out.push(116);
    out.push(105);
    out.push(109);
    out.push(101);
    out.push(115);
    out.push(116);
    out.push(97);
    out.push(109);
    out.push(112);
    out.push(34);
    out.push(58);
    proof {
        assert(out@ =~= old(out)@ + spec_lit_timestamp());
    }
}

fn push_lit_image_path(out: &mut Vec<u8>)
    ensures
        final(out)@ == old(out)@ + spec_lit_image_path(),
{
    out.push(44);
    out.push(34);
    out.push(105);
    out.push(109);
    out.push(97);
    out.push(103);
    out.push(101);
    out.push(95);
    out.push(112);
    out.push(97);
    out.push(116);
    out.push(104);
    out.push(34);
    out.push(58);
    out.push(34);
    proof {
        assert(out@ =~= old(out)@ + spec_lit_image_path());
    }
}

fn push_lit_image_hash(out: &mut Vec<u8>)
    ensures
        final(out)@ == old(out)@ + spec_lit_image_hash(),
{
    out.push(34);
    out.push(44);
    out.push(34);
    out.push(105);
    out.push(109);
    out.push(97);
    out.push(103);
    out.push(101);
    out.push(95);
    out.push(104);
    out.push(97);
    out.push(115);
    out.push(104);
    out.push(34);
    out.push(58);
    out.push(34);
    proof {
        assert(out@ =~= old(out)@ + spec_lit_image_hash());
    }
}

fn push_lit_position(out: &mut Vec<u8>)
    ensures
        final(out)@ == old(out)@ + spec_lit_position(),
{
    out.push(34);
    out.push(44);
    out.push(34);
    out.push(112);
    out.push(111);
    out.push(115);
    out.push(105);
    out.push(116);
    out.push(105);
    out.push(111);
    out.push(110);
    out.push(34);
    out.push(58);
    proof {
        assert(out@ =~= old(out)@ + spec_lit_position());
    }
}

fn push_lit_state(out: &mut Vec<u8>)
    ensures
        final(out)@ == old(out)@ + spec_lit_state(),
{
    out.push(44);
    out.push(34);
    out.push(115);
    out.push(116);
    out.push(97);
    out.push(116);
    out.push(101);
    out.push(34);
    out.push(58);
    out.push(34);
    proof {
        assert(out@ =~= old(out)@ + spec_lit_state());
    }
}

fn push_lit_close(out: &mut Vec<u8>)
    ensures
        final(out)@ == old(out)@ + spec_lit_close(),
{
    out.push(34);
    out.push(125);
    proof {
        assert(out@ =~= old(out)@ + spec_lit_close());
    }
}

/// Serialise a checkpoint to its exact byte form.
#[verifier::rlimit(60)]
pub fn checkpoint_encode(cp: &Checkpoint) -> (r: Vec<u8>)
    ensures
        r@ == cp.enc_bytes(),
{
    let mut out: Vec<u8> = Vec::new();
    push_lit_version(&mut out);
    push_decimal(&mut out, cp.version);
    push_lit_timestamp(&mut out);
    push_decimal(&mut out, cp.timestamp);
    push_lit_image_path(&mut out);
    push_escaped(&mut out, cp.image_path.as_str().as_bytes());
    push_lit_image_hash(&mut out);
    push_escaped(&mut out, cp.image_hash.as_str().as_bytes());
    push_lit_position(&mut out);
    push_decimal(&mut out, cp.position);
    push_lit_state(&mut out);
    push_escaped(&mut out, cp.state.as_str().as_bytes());
    push_lit_close(&mut out);
    proof {
        assert(out@ =~= cp.enc_bytes());
    }
    out
}

/// Parse decimal digits at `pos`; the value and the next position.
fn take_decimal(data: &[u8], pos: usize) -> (r: Option<(u64, usize)>)
    requires
        pos <= data@.len(),
    ensures
        r is Some ==> pos < (r->0).1 <= data@.len(),
        // Completeness: a rendered number bounded by a non-digit is
        // parsed back exactly.
        forall|v: u64|
            #[trigger] spec_starts_dec(data@, pos as int, v) ==> (r is Some && (r->0).0 == v && (
            r->0).1 == pos + spec_dec(v as int).len()),
{
    let n: usize = data.len();
    let mut i: usize = pos;
    let mut value: u64 = 0;
    let mut any: bool = false;
    while i < n && 48 <= data[i] && data[i] <= 57
        invariant
            pos <= i <= n,
            n == data@.len(),
            any == (i > pos),
            forall|q: int| pos <= q < i ==> 48 <= #[trigger] data@[q] <= 57,
            value == spec_parse_dec(data@.subrange(pos as int, i as int)),
        decreases n - i,
    {
        let d: u64 = (data[i] - 48) as u64;
        if value > (u64::MAX - d) / 10 {
            proof {
                // No rendered u64 reaches this overflow: its prefix
                // parse is bounded by its value.
                reveal(spec_starts_dec);
                assert forall|v: u64| !spec_starts_dec(data@, pos as int, v) by {
                    if spec_starts_dec(data@, pos as int, v) {
                        let dv = spec_dec(v as int);
                        lemma_dec_digits(v as int);
                        // The cursor is still inside the rendering.
                        if i - pos >= dv.len() {
                            assert(48 <= data@[pos + dv.len()] <= 57);
                            assert(pos + dv.len() < n);
                            assert(false);
                        }
                        assert(data@.subrange(pos as int, i as int) =~= dv.take(i - pos));
                        lemma_parse_dec_prefix(dv, i - pos + 1);
                        lemma_parse_dec_inverse(v as int);
                        assert(dv.take(i - pos + 1).drop_last() =~= dv.take(i - pos));
                        assert(dv.take(i - pos + 1).last() == dv[i - pos]);
                        assert(dv[i - pos] == data@[i as int]);
                        assert(spec_parse_dec(dv.take(i - pos + 1)) == value * 10 + d);
                        assert(value * 10 + d <= v);
                        assert(value * 10 + d > u64::MAX) by (nonlinear_arith)
                            requires
                                value > (u64::MAX - d) / 10,
                                0 <= d <= 9,
                        ;
                        assert(false);
                    }
                }
            }
            return None;
        }
        proof {
            assert(data@.subrange(pos as int, i + 1).drop_last() =~= data@.subrange(
                pos as int,
                i as int,
            ));
            assert(data@.subrange(pos as int, i + 1).last() == data@[i as int]);
        }
        value = value * 10 + d;
        any = true;
        i = i + 1;
    }
    proof {
        reveal(spec_starts_dec);
        assert forall|v: u64| #[trigger] spec_starts_dec(data@, pos as int, v) implies (any && (
        value == v) && i == pos + spec_dec(v as int).len()) by {
            let dv = spec_dec(v as int);
            lemma_dec_digits(v as int);
            if i - pos < dv.len() {
                // The loop cannot have stopped inside the rendering.
                assert(data@[i as int] == dv[i - pos]);
                assert(48 <= data@[i as int] <= 57);
                assert(i < pos + dv.len());
                assert(pos + dv.len() <= n);
                assert(false);
            }
            if i - pos > dv.len() {
                assert(48 <= data@[pos + dv.len()] <= 57);
                assert(false);
            }
            assert(data@.subrange(pos as int, i as int) =~= dv);
            lemma_parse_dec_inverse(v as int);
        }
    }
    if any {
        Some((value, i))
    } else {
        None
    }
}

/// Parse an escaped string body at `pos` up to its closing quote; the
/// unescaped bytes and the position after the quote.
fn take_string(data: &[u8], pos: usize) -> (r: Option<(Vec<u8>, usize)>)
    requires
        pos <= data@.len(),
    ensures
        r is Some ==> pos < (r->0).1 <= data@.len(),
        // Completeness: an escaped rendering closed by a quote is
        // unescaped back exactly.
        forall|s: Seq<u8>|
            #[trigger] spec_starts_str(data@, pos as int, s) ==> (r is Some && (r->0).0@ == s
                && (r->0).1 == pos + spec_escaped(s).len() + 1),
{
    let n: usize = data.len();
    let mut i: usize = pos;
    let mut out: Vec<u8> = Vec::new();
    while i < n
        invariant
            pos <= i <= n,
            n == data@.len(),
            forall|s: Seq<u8>|
                #[trigger] spec_starts_str(data@, pos as int, s) ==> (out@.len() <= s.len()
                    && out@ == s.take(out@.len() as int) && i == pos + spec_escaped(
                    s.take(out@.len() as int),
                ).len()),
        decreases n - i,
    {
        let ghost out0: Seq<u8> = out@;
        let ghost i0: int = i as int;
        let b: u8 = data[i];
        if b == 34 {
            proof {
                assert forall|s: Seq<u8>| #[trigger] spec_starts_str(
                    data@,
                    pos as int,
                    s,
                ) implies (out@ == s && i + 1 == pos + spec_escaped(s).len() + 1) by {
                    lemma_take_string_head(data@, pos as int, s, out@, i as int);
                    assert(out@.len() == s.len());
                    assert(out@ =~= s);
                }
            }
            return Some((out, i + 1));
        }
        if b == 92 {
            if i + 1 >= n {
                proof {
                    assert forall|s: Seq<u8>| !spec_starts_str(data@, pos as int, s) by {
                        if spec_starts_str(data@, pos as int, s) {
                            lemma_take_string_head(data@, pos as int, s, out@, i as int);
                        }
                    }
                }
                return None;
            }
            let e: u8 = data[i + 1];
            if e == 34 || e == 92 {
                proof {
                    assert forall|s: Seq<u8>| #[trigger] spec_starts_str(
                        data@,
                        pos as int,
                        s,
                    ) implies (out0.len() < s.len() && s[out0.len() as int] == e && i0 + 2 == pos
                        + spec_escaped(s.take(out0.len() as int + 1)).len()) by {
                        lemma_take_string_head(data@, pos as int, s, out0, i0);
                    }
                }
                out.push(e);
                i = i + 2;
                proof {
                    assert forall|s: Seq<u8>| #[trigger] spec_starts_str(
                        data@,
                        pos as int,
                        s,
                    ) implies (out@.len() <= s.len() && out@ == s.take(out@.len() as int) && i
                        == pos + spec_escaped(s.take(out@.len() as int)).len()) by {
                        assert(out@ =~= s.take(out0.len() as int).push(s[out0.len() as int]));
                        assert(s.take(out0.len() as int + 1) =~= s.take(out0.len() as int).push(
                            s[out0.len() as int],
                        ));
                    }
                }
            } else {
                proof {
                    assert forall|s: Seq<u8>| !spec_starts_str(data@, pos as int, s) by {
                        if spec_starts_str(data@, pos as int, s) {
                            lemma_take_string_head(data@, pos as int, s, out0, i0);
                        }
                    }
                }
                return None;
            }
        } else {
            proof {
                assert forall|s: Seq<u8>| #[trigger] spec_starts_str(
                    data@,
                    pos as int,
                    s,
                ) implies (out0.len() < s.len() && s[out0.len() as int] == b && i0 + 1 == pos
                    + spec_escaped(s.take(out0.len() as int + 1)).len()) by {
                    lemma_take_string_head(data@, pos as int, s, out0, i0);
                }
            }
            out.push(b);
            i = i + 1;
            proof {
                assert forall|s: Seq<u8>| #[trigger] spec_starts_str(
                    data@,
                    pos as int,
                    s,
                ) implies (out@.len() <= s.len() && out@ == s.take(out@.len() as int) && i == pos
                    + spec_escaped(s.take(out@.len() as int)).len()) by {
                    assert(out@ =~= s.take(out0.len() as int).push(s[out0.len() as int]));
                    assert(s.take(out0.len() as int + 1) =~= s.take(out0.len() as int).push(
                        s[out0.len() as int],
                    ));
                }
            }
        }
    }
    proof {
        assert forall|s: Seq<u8>| !spec_starts_str(data@, pos as int, s) by {
            if spec_starts_str(data@, pos as int, s) {
                lemma_take_string_head(data@, pos as int, s, out@, i as int);
            }
        }
    }
    None
}

/// What the escaped rendering of `s` looks like at the cursor: with
/// `m` bytes unescaped so far, either the cursor sits on the closing
/// quote (all of `s` read), or on the head of the next escape group,
/// whose bytes and length this lemma names.
proof fn lemma_take_string_head(data: Seq<u8>, pos: int, s: Seq<u8>, out: Seq<u8>, i: int)
    requires
        spec_starts_str(data, pos, s),
        out.len() <= s.len(),
        out == s.take(out.len() as int),
        i == pos + spec_escaped(s.take(out.len() as int)).len(),
        0 <= i <= data.len(),
    ensures
        out.len() == s.len() ==> i == pos + spec_escaped(s).len() && data[i] == 34,
        out.len() < s.len() ==> {
            let m = out.len() as int;
            let em = spec_escaped(s.take(m));
            &&& (s[m] == 34 || s[m] == 92) ==> data[i] == 92 && i + 1 < data.len() && data[i + 1]
                == s[m] && pos + spec_escaped(s.take(m + 1)).len() == i + 2 && i + 2 <= pos
                + spec_escaped(s).len()
            &&& !(s[m] == 34 || s[m] == 92) ==> data[i] == s[m] && data[i] != 34 && data[i] != 92
                && pos + spec_escaped(s.take(m + 1)).len() == i + 1 && i + 1 <= pos
                + spec_escaped(s).len()
        },
        i <= pos + spec_escaped(s).len(),
        pos + spec_escaped(s).len() < data.len(),
{
    reveal(spec_starts_str);
    let m = out.len() as int;
    let e = spec_escaped(s);
    let em = spec_escaped(s.take(m));
    assert(s.take(m) + s.skip(m) =~= s);
    lemma_escaped_append(s.take(m), s.skip(m));
    assert(e == em + spec_escaped(s.skip(m)));
    assert forall|q: int| 0 <= q < e.len() implies data[pos + q] == e[q] by {
        assert(data.subrange(pos, pos + e.len())[q] == data[pos + q]);
    }
    if m == s.len() {
        assert(s.take(m) =~= s);
        assert(data[pos + e.len()] == 34);
    } else {
        let u = s.skip(m);
        assert(u.len() > 0);
        assert(u[0] == s[m]);
        assert(u.drop_first() =~= s.skip(m + 1));
        let head: Seq<u8> = if s[m] == 34 {
            seq![92u8, 34u8]
        } else if s[m] == 92 {
            seq![92u8, 92u8]
        } else {
            seq![s[m]]
        };
        assert(spec_escaped(u) == head + spec_escaped(s.skip(m + 1)));
        assert(e.len() == em.len() + head.len() + spec_escaped(s.skip(m + 1)).len());
        assert(s.take(m + 1) =~= s.take(m).push(s[m]));
        lemma_escaped_snoc(s.take(m), s[m]);
        assert(e[em.len() as int] == head[0]);
        assert(data[i] == head[0]);
        if head.len() == 2 {
            assert(e[em.len() as int + 1] == head[1]);
            assert(data[i + 1] == head[1]);
        }
    }
}

/// Match a fixed literal at `pos`.
fn take_lit(data: &[u8], pos: usize, lit: &[u8]) -> (r: Option<usize>)
    requires
        pos <= data@.len(),
    ensures
        r is Some ==> pos <= r->0 <= data@.len() && r->0 == pos + lit@.len(),
        (pos + lit@.len() <= data@.len() && data@.subrange(pos as int, pos + lit@.len())
            == lit@) ==> r is Some,
{
    if data.len() - pos < lit.len() {
        return None;
    }
    let window: &[u8] = vstd::slice::slice_subrange(data, pos, pos + lit.len());
    proof {
        assert(window@ =~= data@.subrange(pos as int, pos + lit@.len()));
    }
    if eq_bytes(window, lit) {
        Some(pos + lit.len())
    } else {
        None
    }
}

/// Build the exec form of each literal.
fn lit_version() -> (r: Vec<u8>)
    ensures
        r@ == spec_lit_version(),
{
    let mut out: Vec<u8> = Vec::new();
    push_lit_version(&mut out);
    proof {
        assert(out@ =~= spec_lit_version());
    }
    out
}

fn lit_timestamp() -> (r: Vec<u8>)
    ensures
        r@ == spec_lit_timestamp(),
{
    let mut out: Vec<u8> = Vec::new();
    push_lit_timestamp(&mut out);
    proof {
        assert(out@ =~= spec_lit_timestamp());
    }
    out
}

fn lit_image_path() -> (r: Vec<u8>)
    ensures
        r@ == spec_lit_image_path(),
{
    let mut out: Vec<u8> = Vec::new();
    push_lit_image_path(&mut out);
    proof {
        assert(out@ =~= spec_lit_image_path());
    }
    out
}

fn lit_image_hash() -> (r: Vec<u8>)
    ensures
        r@ == spec_lit_image_hash(),
{
    let mut out: Vec<u8> = Vec::new();
    push_lit_image_hash(&mut out);
    proof {
        assert(out@ =~= spec_lit_image_hash());
    }
    out
}

fn lit_position() -> (r: Vec<u8>)
    ensures
        r@ == spec_lit_position(),
{
    let mut out: Vec<u8> = Vec::new();
    push_lit_position(&mut out);
    proof {
        assert(out@ =~= spec_lit_position());
    }
    out
}

fn lit_state() -> (r: Vec<u8>)
    ensures
        r@ == spec_lit_state(),
{
    let mut out: Vec<u8> = Vec::new();
    push_lit_state(&mut out);
    proof {
        assert(out@ =~= spec_lit_state());
    }
    out
}

/// Load a checkpoint from its byte form.
///
/// Accepts exactly the byte strings some checkpoint encodes to: the
/// parsed fields are re-encoded and compared byte for byte, so a hit
/// is always a faithful rendering of the input.
/// Equal fields, as characters, re-encode to the same bytes.
proof fn lemma_decode_rebuild(built: Checkpoint, c: Checkpoint)
    requires
        built.version == c.version,
        built.timestamp == c.timestamp,
        built.position == c.position,
        vstd::utf8::encode_utf8(built.image_path@) == vstd::utf8::encode_utf8(c.image_path@),
        vstd::utf8::encode_utf8(built.image_hash@) == vstd::utf8::encode_utf8(c.image_hash@),
        vstd::utf8::encode_utf8(built.state@) == vstd::utf8::encode_utf8(c.state@),
    ensures
        built.enc_bytes() == c.enc_bytes(),
{
    vstd::utf8::encode_utf8_decode_utf8(built.image_path@);
    vstd::utf8::encode_utf8_decode_utf8(c.image_path@);
    assert(built.image_path@ == c.image_path@);
    vstd::utf8::encode_utf8_decode_utf8(built.image_hash@);
    vstd::utf8::encode_utf8_decode_utf8(c.image_hash@);
    assert(built.image_hash@ == c.image_hash@);
    vstd::utf8::encode_utf8_decode_utf8(built.state@);
    vstd::utf8::encode_utf8_decode_utf8(c.state@);
    assert(built.state@ == c.state@);
}

/// The layout of an encoder output, front half: the version and
/// timestamp renderings and the path string at their fixed offsets,
/// and the remaining suffix in place.
#[verifier::rlimit(100)]
proof fn lemma_decode_layout_head(data: Seq<u8>, cp: Checkpoint)
    requires
        data == cp.enc_bytes(),
    ensures
        ({
            let l1 = spec_lit_version();
            let o1 = l1.len() as int;
            let o2 = o1 + spec_dec(cp.version as int).len();
            let o3 = o2 + spec_lit_timestamp().len();
            let o4 = o3 + spec_dec(cp.timestamp as int).len();
            let o5 = o4 + spec_lit_image_path().len();
            let o6 = o5 + spec_escaped(vstd::utf8::encode_utf8(cp.image_path@)).len();
            &&& o1 <= data.len()
            &&& data.subrange(0, o1) == l1
            &&& spec_starts_dec(data, o1, cp.version)
            &&& o3 <= data.len()
            &&& data.subrange(o2, o3) == spec_lit_timestamp()
            &&& spec_starts_dec(data, o3, cp.timestamp)
            &&& o5 <= data.len()
            &&& data.subrange(o4, o5) == spec_lit_image_path()
            &&& spec_starts_str(data, o5, vstd::utf8::encode_utf8(cp.image_path@))
            &&& vstd::utf8::valid_utf8(vstd::utf8::encode_utf8(cp.image_path@))
            &&& data.skip(o6) == spec_lit_image_hash() + (spec_escaped(
                vstd::utf8::encode_utf8(cp.image_hash@),
            ) + (spec_lit_position() + (spec_dec(cp.position as int) + (spec_lit_state() + (
            spec_escaped(vstd::utf8::encode_utf8(cp.state@)) + spec_lit_close())))))
        }),
{
    broadcast use vstd::utf8::encode_utf8_valid_utf8;

    reveal(spec_starts_dec);
    reveal(spec_starts_str);
    let l1 = spec_lit_version();
    let d1 = spec_dec(cp.version as int);
    let l2 = spec_lit_timestamp();
    let d2 = spec_dec(cp.timestamp as int);
    let l3 = spec_lit_image_path();
    let s1 = vstd::utf8::encode_utf8(cp.image_path@);
    let e1 = spec_escaped(s1);
    let l4 = spec_lit_image_hash();
    let s2 = vstd::utf8::encode_utf8(cp.image_hash@);
    let e2 = spec_escaped(s2);
    let l5 = spec_lit_position();
    let d3 = spec_dec(cp.position as int);
    let l6 = spec_lit_state();
    let s3 = vstd::utf8::encode_utf8(cp.state@);
    let e3 = spec_escaped(s3);
    let l7 = spec_lit_close();
    let r1 = d1 + (l2 + (d2 + (l3 + (e1 + (l4 + (e2 + (l5 + (d3 + (l6 + (e3 + l7))))))))));
    let r2 = l2 + (d2 + (l3 + (e1 + (l4 + (e2 + (l5 + (d3 + (l6 + (e3 + l7)))))))));
    let r3 = d2 + (l3 + (e1 + (l4 + (e2 + (l5 + (d3 + (l6 + (e3 + l7))))))));
    let r4 = l3 + (e1 + (l4 + (e2 + (l5 + (d3 + (l6 + (e3 + l7)))))));
    let r5 = e1 + (l4 + (e2 + (l5 + (d3 + (l6 + (e3 + l7))))));
    let r6 = l4 + (e2 + (l5 + (d3 + (l6 + (e3 + l7)))));
    assert(data.skip(0) =~= data);
    assert(data == l1 + r1);
    lemma_split_at(data, 0, l1, r1);
    let o1 = l1.len() as int;
    lemma_split_at(data, o1, d1, r2);
    let o2 = o1 + d1.len();
    lemma_split_at(data, o2, l2, r3);
    let o3 = o2 + l2.len();
    lemma_split_at(data, o3, d2, r4);
    let o4 = o3 + d2.len();
    lemma_split_at(data, o4, l3, r5);
    let o5 = o4 + l3.len();
    lemma_split_at(data, o5, e1, r6);
    let o6 = o5 + e1.len();
    assert(data[o2] == l2[0]);
    assert(data[o4] == l3[0]);
    assert(spec_starts_dec(data, o1, cp.version));
    assert(spec_starts_dec(data, o3, cp.timestamp));
    assert(data[o6] == r6[0]);
    assert(r6[0] == l4[0]);
    assert(spec_starts_str(data, o5, s1));
}

/// The layout of an encoder output, back half: the hash string, the
/// position rendering and the state string at their fixed offsets.
#[verifier::rlimit(100)]
proof fn lemma_decode_layout_tail(data: Seq<u8>, cp: Checkpoint, o6: int)
    requires
        0 <= o6 <= data.len(),
        data.skip(o6) == spec_lit_image_hash() + (spec_escaped(
            vstd::utf8::encode_utf8(cp.image_hash@),
        ) + (spec_lit_position() + (spec_dec(cp.position as int) + (spec_lit_state() + (
        spec_escaped(vstd::utf8::encode_utf8(cp.state@)) + spec_lit_close()))))),
    ensures
        ({
            let o7 = o6 + spec_lit_image_hash().len();
            let o8 = o7 + spec_escaped(vstd::utf8::encode_utf8(cp.image_hash@)).len();
            let o9 = o8 + spec_lit_position().len();
            let o10 = o9 + spec_dec(cp.position as int).len();
            let o11 = o10 + spec_lit_state().len();
            &&& o7 <= data.len()
            &&& data.subrange(o6, o7) == spec_lit_image_hash()
            &&& spec_starts_str(data, o7, vstd::utf8::encode_utf8(cp.image_hash@))
            &&& o9 <= data.len()
            &&& data.subrange(o8, o9) == spec_lit_position()
            &&& spec_starts_dec(data, o9, cp.position)
            &&& o11 <= data.len()
            &&& data.subrange(o10, o11) == spec_lit_state()
            &&& spec_starts_str(data, o11, vstd::utf8::encode_utf8(cp.state@))
            &&& vstd::utf8::valid_utf8(vstd::utf8::encode_utf8(cp.image_hash@))
            &&& vstd::utf8::valid_utf8(vstd::utf8::encode_utf8(cp.state@))
        }),
{
    broadcast use vstd::utf8::encode_utf8_valid_utf8;

    reveal(spec_starts_dec);
    reveal(spec_starts_str);
    let l4 = spec_lit_image_hash();
    let s2 = vstd::utf8::encode_utf8(cp.image_hash@);
    let e2 = spec_escaped(s2);
    let l5 = spec_lit_position();
    let d3 = spec_dec(cp.position as int);
    let l6 = spec_lit_state();
    let s3 = vstd::utf8::encode_utf8(cp.state@);
    let e3 = spec_escaped(s3);
    let l7 = spec_lit_close();
    let r7 = e2 + (l5 + (d3 + (l6 + (e3 + l7))));
    let r8 = l5 + (d3 + (l6 + (e3 + l7)));
    let r9 = d3 + (l6 + (e3 + l7));
    let r10 = l6 + (e3 + l7);
    let r11 = e3 + l7;
    lemma_split_at(data, o6, l4, r7);
    let o7 = o6 + l4.len();
    lemma_split_at(data, o7, e2, r8);
    let o8 = o7 + e2.len();
    lemma_split_at(data, o8, l5, r9);
    let o9 = o8 + l5.len();
    lemma_split_at(data, o9, d3, r10);
    let o10 = o9 + d3.len();
    lemma_split_at(data, o10, l6, r11);
    let o11 = o10 + l6.len();
    lemma_split_at(data, o11, e3, l7);
    let o12 = o11 + e3.len();
    assert(data[o8] == l5[0]);
    assert(data[o10] == l6[0]);
    assert(spec_starts_str(data, o7, s2));
    assert(spec_starts_dec(data, o9, cp.position));
    assert(data[o12] == l7[0]);
    assert(spec_starts_str(data, o11, s3));
}

#[verifier::rlimit(100)]
pub fn checkpoint_decode(data: &[u8]) -> (r: Option<Checkpoint>)
    ensures
        r is Some ==> r->0.enc_bytes() == data@,
        // Completeness: every encoder output is accepted.
        (exists|cp: Checkpoint| data@ == cp.enc_bytes()) ==> r is Some,
{
    proof {
        if exists|cp: Checkpoint| data@ == cp.enc_bytes() {
            let cp = choose|cp: Checkpoint| data@ == cp.enc_bytes();
            lemma_decode_layout_head(data@, cp);
            lemma_decode_layout_tail(
                data@,
                cp,
                spec_lit_version().len() as int + spec_dec(cp.version as int).len()
                    + spec_lit_timestamp().len() + spec_dec(cp.timestamp as int).len()
                    + spec_lit_image_path().len() + spec_escaped(
                    vstd::utf8::encode_utf8(cp.image_path@),
                ).len(),
            );
        }
    }
    let mut pos: usize = 0;
    let lv: Vec<u8> = lit_version();
    pos = match take_lit(data, pos, lv.as_slice()) {
        Some(p) => p,
        None => {
            return None;
        },
    };
    let (version, p1): (u64, usize) = match take_decimal(data, pos) {
        Some(v) => v,
        None => {
            return None;
        },
    };
    pos = p1;
    let lt: Vec<u8> = lit_timestamp();
    pos = match take_lit(data, pos, lt.as_slice()) {
        Some(p) => p,
        None => {
            return None;
        },
    };
    let (timestamp, p2): (u64, usize) = match take_decimal(data, pos) {
        Some(v) => v,
        None => {
            return None;
        },
    };
    pos = p2;
    let lp: Vec<u8> = lit_image_path();
    pos = match take_lit(data, pos, lp.as_slice()) {
        Some(p) => p,
        None => {
            return None;
        },
    };
    let (path_bytes, p3): (Vec<u8>, usize) = match take_string(data, pos) {
        Some(v) => v,
        None => {
            return None;
        },
    };
    pos = p3 - 1;
    let lh: Vec<u8> = lit_image_hash();
    pos = match take_lit(data, pos, lh.as_slice()) {
        Some(p) => p,
        None => {
            return None;
        },
    };
    let (hash_bytes, p4): (Vec<u8>, usize) = match take_string(data, pos) {
        Some(v) => v,
        None => {
            return None;
        },
    };
    pos = p4 - 1;
    let lpos: Vec<u8> = lit_position();
    pos = match take_lit(data, pos, lpos.as_slice()) {
        Some(p) => p,
        None => {
            return None;
        },
    };
    let (position, p5): (u64, usize) = match take_decimal(data, pos) {
        Some(v) => v,
        None => {
            return None;
        },
    };
    pos = p5;
    let ls: Vec<u8> = lit_state();
    pos = match take_lit(data, pos, ls.as_slice()) {
        Some(p) => p,
        None => {
            return None;
        },
    };
    let (state_bytes, _p6): (Vec<u8>, usize) = match take_string(data, pos) {
        Some(v) => v,
        None => {
            return None;
        },
    };
    let image_path: String = match crate::validator::bytes_to_string(path_bytes) {
        Some(s) => s,
        None => {
            return None;
        },
    };
    let image_hash: String = match crate::validator::bytes_to_string(hash_bytes) {
        Some(s) => s,
        None => {
            return None;
        },
    };
    let state: String = match crate::validator::bytes_to_string(state_bytes) {
        Some(s) => s,
        None => {
            return None;
        },
    };
    let cp = Checkpoint { version, timestamp, image_path, image_hash, position, state };
    proof {
        if exists|c: Checkpoint| data@ == c.enc_bytes() {
            let c = choose|c: Checkpoint| data@ == c.enc_bytes();
            lemma_decode_rebuild(cp, c);
            assert(cp.enc_bytes() == data@);
        }
    }
    // A candidate is accepted only when it re-encodes to the input,
    // byte for byte.
    let reencoded: Vec<u8> = checkpoint_encode(&cp);
    if eq_bytes(reencoded.as_slice(), data) {
        Some(cp)
    } else {
        None
    }
}

/// The resume verdict and its reason.
#[derive(Debug)]
pub struct ResumeValidation {
    pub is_valid: bool,
    pub reason: Option<String>,
}

impl ResumeValidation {
    /// A passing verdict.
    pub fn valid() -> (r: Self)
        ensures
            r.is_valid,
            r.reason is None,
    {
        ResumeValidation { is_valid: true, reason: None }
    }

    /// A failing verdict with its reason.
    pub fn invalid(reason: String) -> (r: Self)
        ensures
            !r.is_valid,
            r.reason == Some(reason),
    {
        ResumeValidation { is_valid: false, reason: Some(reason) }
    }
}

/// Validate a checkpoint against the image it claims to describe:
/// the path must match, the fingerprint must match, and the saved
/// position must lie within the image. The checks run in that order
/// and the first failure names the reason.
pub fn validate_resume(
    image_path: &str,
    actual_hash: &str,
    image_size: u64,
    cp: &Checkpoint,
) -> (r: ResumeValidation)
    ensures
        r.is_valid <==> (vstd::utf8::encode_utf8(cp.image_path@) == image_path.spec_bytes()
            && vstd::utf8::encode_utf8(cp.image_hash@) == actual_hash.spec_bytes()
            && cp.position <= image_size),
        !r.is_valid <==> r.reason is Some,
{
    if !eq_bytes(cp.image_path.as_str().as_bytes(), image_path.as_bytes()) {
        return ResumeValidation::invalid(String::from_str("image path mismatch"));
    }
    if !eq_bytes(cp.image_hash.as_str().as_bytes(), actual_hash.as_bytes()) {
        return ResumeValidation::invalid(String::from_str("image hash mismatch"));
    }
    if cp.position > image_size {
        return ResumeValidation::invalid(
            String::from_str("checkpoint position exceeds image size"),
        );
    }
    ResumeValidation::valid()
}

/// The eight little-endian bytes of a length.
pub open spec fn spec_le8(n: int) -> Seq<u8> {
    seq![
        (n % 256) as u8,
        (n / 256 % 256) as u8,
        (n / 65536 % 256) as u8,
        (n / 16777216 % 256) as u8,
        (n / 4294967296 % 256) as u8,
        (n / 1099511627776 % 256) as u8,
        (n / 281474976710656 % 256) as u8,
        (n / 72057594037927936 % 256) as u8,
    ]
}

/// The image fingerprint: SHA-256 over the first mebibyte of the image
/// followed by the image length as eight little-endian bytes, rendered
/// in lower-case hex.
pub fn fingerprint(head: &[u8], image_len: u64) -> (r: String)
    ensures
        r@ == spec_hex_chars(sha256_of(head@ + spec_le8(image_len as int))),
        r@.len() == 64,
{
    let mut buf: Vec<u8> = Vec::new();
    let mut i: usize = 0;
    while i < head.len()
        invariant
            i <= head@.len(),
            buf@ == head@.take(i as int),
        decreases head@.len() - i,
    {
        buf.push(head[i]);
        proof {
            assert(buf@ =~= head@.take(i + 1));
        }
        i = i + 1;
    }
    proof {
        assert(head@.take(head@.len() as int) =~= head@);
    }
    buf.push((image_len % 256) as u8);
    buf.push((image_len / 256 % 256) as u8);
    buf.push((image_len / 65536 % 256) as u8);
    buf.push((image_len / 16777216 % 256) as u8);
    buf.push((image_len / 4294967296 % 256) as u8);
    buf.push((image_len / 1099511627776 % 256) as u8);
    buf.push((image_len / 281474976710656 % 256) as u8);
    buf.push((image_len / 72057594037927936 % 256) as u8);
    proof {
        assert(buf@ =~= head@ + spec_le8(image_len as int));
    }
    let digest: Vec<u8> = sha256_digest(buf.as_slice());
    to_hex_string(digest.as_slice())
}

/// The number a digit string denotes, most significant digit first.
pub open spec fn spec_parse_dec(s: Seq<u8>) -> int
    decreases s.len(),
{
    if s.len() == 0 {
        0
    } else {
        spec_parse_dec(s.drop_last()) * 10 + (s.last() - 48)
    }
}

/// A digit string denotes a non-negative number.
proof fn lemma_parse_dec_nonneg(s: Seq<u8>)
    requires
        forall|q: int| 0 <= q < s.len() ==> 48 <= #[trigger] s[q] <= 57,
    ensures
        spec_parse_dec(s) >= 0,
    decreases s.len(),
{
    if s.len() > 0 {
        assert(forall|q: int|
            0 <= q < s.drop_last().len() ==> 48 <= #[trigger] s.drop_last()[q] <= 57);
        lemma_parse_dec_nonneg(s.drop_last());
    }
}

/// Parsing undoes rendering.
proof fn lemma_parse_dec_inverse(n: int)
    requires
        n >= 0,
    ensures
        spec_parse_dec(spec_dec(n)) == n,
    decreases n,
{
    if n < 10 {
        assert(spec_dec(n).len() == 1);
        assert(spec_parse_dec(spec_dec(n)) == spec_parse_dec(spec_dec(n).drop_last()) * 10 + (
        spec_dec(n).last() - 48));
        assert(spec_dec(n).drop_last() =~= Seq::<u8>::empty());
        assert(spec_parse_dec(Seq::<u8>::empty()) == 0);
        assert(spec_dec(n).last() == (48 + n) as u8);
        assert((48 + n) as u8 - 48 == n);
    } else {
        lemma_parse_dec_inverse(n / 10);
        assert(spec_dec(n).len() >= 2) by {
            lemma_dec_digits(n / 10);
        }
        assert(spec_parse_dec(spec_dec(n)) == spec_parse_dec(spec_dec(n).drop_last()) * 10 + (
        spec_dec(n).last() - 48));
        assert(spec_dec(n).drop_last() =~= spec_dec(n / 10));
        assert(spec_dec(n).last() == (48 + n % 10) as u8);
        assert(0 <= n % 10 < 10);
        assert((48 + n % 10) as u8 - 48 == n % 10);
        assert(spec_parse_dec(spec_dec(n)) == (n / 10) * 10 + n % 10);
        assert((n / 10) * 10 + n % 10 == n) by {
            vstd::arithmetic::div_mod::lemma_fundamental_div_mod(n, 10);
        }
    }
}

/// A digit prefix denotes at most the whole string's number.
proof fn lemma_parse_dec_prefix(s: Seq<u8>, k: int)
    requires
        forall|q: int| 0 <= q < s.len() ==> 48 <= #[trigger] s[q] <= 57,
        0 <= k <= s.len(),
    ensures
        spec_parse_dec(s.take(k)) <= spec_parse_dec(s),
    decreases s.len() - k,
{
    if k < s.len() {
        assert(s.take(k + 1).drop_last() =~= s.take(k));
        assert(s.take(k + 1).last() == s[k]);
        assert(forall|q: int| 0 <= q < s.take(k).len() ==> 48 <= #[trigger] s.take(k)[q] <= 57);
        lemma_parse_dec_nonneg(s.take(k));
        assert(spec_parse_dec(s.take(k)) <= spec_parse_dec(s.take(k + 1)));
        lemma_parse_dec_prefix(s, k + 1);
    } else {
        assert(s.take(k) =~= s);
    }
}

/// A decimal rendering of `v` sits at `pos`, with no digit after it.
#[verifier::opaque]
pub open spec fn spec_starts_dec(data: Seq<u8>, pos: int, v: u64) -> bool {
    let d = spec_dec(v as int);
    &&& 0 <= pos
    &&& pos + d.len() <= data.len()
    &&& data.subrange(pos, pos + d.len()) == d
    &&& (pos + d.len() == data.len() || !(48 <= data[pos + d.len()] <= 57))
}

/// An escaped rendering of `s` sits at `pos`, a closing quote after it.
#[verifier::opaque]
pub open spec fn spec_starts_str(data: Seq<u8>, pos: int, s: Seq<u8>) -> bool {
    let e = spec_escaped(s);
    &&& 0 <= pos
    &&& pos + e.len() + 1 <= data.len()
    &&& data.subrange(pos, pos + e.len()) == e
    &&& data[pos + e.len()] == 34
}

/// Escaping distributes over concatenation.
proof fn lemma_escaped_append(a: Seq<u8>, b: Seq<u8>)
    ensures
        spec_escaped(a + b) == spec_escaped(a) + spec_escaped(b),
    decreases b.len(),
{
    if b.len() == 0 {
        assert(a + b =~= a);
        assert(spec_escaped(a) + spec_escaped(b) =~= spec_escaped(a));
    } else {
        let b0 = b.drop_last();
        let x = b.last();
        lemma_escaped_append(a, b0);
        assert(a + b =~= (a + b0).push(x));
        lemma_escaped_snoc(a + b0, x);
        lemma_escaped_snoc(b0, x);
        assert(b0.push(x) =~= b);
        assert(spec_escaped(a + b) =~= spec_escaped(a) + spec_escaped(b));
    }
}

/// Splitting a concatenation found at an offset of a longer string.
proof fn lemma_split_at(data: Seq<u8>, o: int, x: Seq<u8>, r: Seq<u8>)
    requires
        0 <= o <= data.len(),
        data.skip(o) == x + r,
    ensures
        o + x.len() <= data.len(),
        data.subrange(o, o + x.len()) == x,
        data.skip(o + x.len()) == r,
{
    assert(data.skip(o).len() == data.len() - o);
    assert(data.len() - o == x.len() + r.len());
    assert forall|q: int| 0 <= q < x.len() implies data[o + q] == x[q] by {
        assert(data.skip(o)[q] == data[o + q]);
        assert((x + r)[q] == x[q]);
    }
    assert(data.subrange(o, o + x.len()) =~= x);
    assert forall|q: int| 0 <= q < r.len() implies data[o + x.len() + q] == r[q] by {
        assert(data.skip(o)[x.len() + q] == data[o + x.len() + q]);
        assert((x + r)[x.len() + q] == r[q]);
    }
    assert(data.skip(o + x.len()) =~= r);
}

/// Equal concatenations with equal heads have equal tails.
proof fn lemma_concat_cancel(x: Seq<u8>, a: Seq<u8>, y: Seq<u8>, b: Seq<u8>)
    requires
        x + a == y + b,
        x == y,
    ensures
        a == b,
{
    assert(a =~= (x + a).subrange(x.len() as int, (x + a).len() as int));
    assert(b =~= (y + b).subrange(y.len() as int, (y + b).len() as int));
}

/// Decimal renderings hold digits only, and at least one.
proof fn lemma_dec_digits(n: int)
    ensures
        spec_dec(n).len() >= 1,
        forall|i: int| 0 <= i < spec_dec(n).len() ==> 48 <= #[trigger] spec_dec(n)[i] <= 57,
    decreases n,
{
    if n >= 10 {
        lemma_dec_digits(n / 10);
    }
}

/// Decimal rendering is one to one.
proof fn lemma_dec_injective(a: int, b: int)
    requires
        a >= 0,
        b >= 0,
        spec_dec(a) == spec_dec(b),
    ensures
        a == b,
    decreases a,
{
    lemma_dec_digits(a);
    lemma_dec_digits(b);
    if a < 10 && b < 10 {
        assert(spec_dec(a)[0] == spec_dec(b)[0]);
    } else if a < 10 {
        lemma_dec_digits(b / 10);
        assert(spec_dec(b).len() >= 2);
    } else if b < 10 {
        lemma_dec_digits(a / 10);
        assert(spec_dec(a).len() >= 2);
    } else {
        assert(0 <= a % 10 < 10 && 0 <= b % 10 < 10) by (nonlinear_arith)
            requires
                a >= 10 && b >= 10,
        ;
        assert(spec_dec(a) == spec_dec(a / 10).push((48 + a % 10) as u8));
        assert(spec_dec(b) == spec_dec(b / 10).push((48 + b % 10) as u8));
        assert(spec_dec(a).last() == (48 + a % 10) as u8);
        assert(spec_dec(b).last() == (48 + b % 10) as u8);
        assert(((48 + a % 10) as u8) as int == 48 + a % 10);
        assert(((48 + b % 10) as u8) as int == 48 + b % 10);
        assert(a % 10 == b % 10);
        assert(spec_dec(a).drop_last() =~= spec_dec(a / 10));
        assert(spec_dec(b).drop_last() =~= spec_dec(b / 10));
        lemma_dec_injective(a / 10, b / 10);
        vstd::arithmetic::div_mod::lemma_fundamental_div_mod(a, 10);
        vstd::arithmetic::div_mod::lemma_fundamental_div_mod(b, 10);
    }
}

/// Two decimal segments followed by non-digits split one byte string
/// the same way.
proof fn lemma_dec_strip(n1: int, n2: int, a: Seq<u8>, b: Seq<u8>)
    requires
        n1 >= 0,
        n2 >= 0,
        spec_dec(n1) + a == spec_dec(n2) + b,
        a.len() >= 1,
        b.len() >= 1,
        !(48 <= a[0] <= 57),
        !(48 <= b[0] <= 57),
    ensures
        n1 == n2,
        a == b,
{
    lemma_dec_digits(n1);
    lemma_dec_digits(n2);
    let d1 = spec_dec(n1);
    let d2 = spec_dec(n2);
    let s = d1 + a;
    if d1.len() < d2.len() {
        assert(s[d1.len() as int] == a[0]);
        assert((d2 + b)[d1.len() as int] == d2[d1.len() as int]);
        assert(48 <= d2[d1.len() as int] <= 57);
        assert(false);
    } else if d2.len() < d1.len() {
        assert(s[d2.len() as int] == d1[d2.len() as int]);
        assert((d2 + b)[d2.len() as int] == b[0]);
        assert(48 <= d1[d2.len() as int] <= 57);
        assert(false);
    } else {
        assert(d1 =~= d2) by {
            assert(forall|i: int| 0 <= i < d1.len() ==> s[i] == #[trigger] d1[i]);
            assert(forall|i: int| 0 <= i < d2.len() ==> (d2 + b)[i] == #[trigger] d2[i]);
        }
        lemma_dec_injective(n1, n2);
        lemma_concat_cancel(d1, a, d2, b);
    }
}

/// Two escaped segments closed by a quote split one byte string the
/// same way.
proof fn lemma_esc_strip(s1: Seq<u8>, s2: Seq<u8>, a: Seq<u8>, b: Seq<u8>)
    requires
        spec_escaped(s1) + a == spec_escaped(s2) + b,
        a.len() >= 1,
        b.len() >= 1,
        a[0] == 34,
        b[0] == 34,
    ensures
        s1 == s2,
        a == b,
    decreases s1.len(),
{
    if s1.len() == 0 && s2.len() == 0 {
        assert(spec_escaped(s1) == Seq::<u8>::empty());
        lemma_concat_cancel(spec_escaped(s1), a, spec_escaped(s2), b);
        assert(s1 =~= s2);
    } else if s1.len() == 0 {
        // The right side starts with an escape or a bare non-quote.
        let h2: Seq<u8> = if s2[0] == 34 {
            seq![92u8, 34u8]
        } else if s2[0] == 92 {
            seq![92u8, 92u8]
        } else {
            seq![s2[0]]
        };
        assert(spec_escaped(s2) == h2 + spec_escaped(s2.drop_first()));
        assert((spec_escaped(s1) + a)[0] == a[0]);
        assert((spec_escaped(s2) + b)[0] == h2[0]);
        assert(h2[0] != 34);
        assert(false);
    } else if s2.len() == 0 {
        let h1: Seq<u8> = if s1[0] == 34 {
            seq![92u8, 34u8]
        } else if s1[0] == 92 {
            seq![92u8, 92u8]
        } else {
            seq![s1[0]]
        };
        assert(spec_escaped(s1) == h1 + spec_escaped(s1.drop_first()));
        assert((spec_escaped(s2) + b)[0] == b[0]);
        assert((spec_escaped(s1) + a)[0] == h1[0]);
        assert(h1[0] != 34);
        assert(false);
    } else {
        let h1: Seq<u8> = if s1[0] == 34 {
            seq![92u8, 34u8]
        } else if s1[0] == 92 {
            seq![92u8, 92u8]
        } else {
            seq![s1[0]]
        };
        let h2: Seq<u8> = if s2[0] == 34 {
            seq![92u8, 34u8]
        } else if s2[0] == 92 {
            seq![92u8, 92u8]
        } else {
            seq![s2[0]]
        };
        assert(spec_escaped(s1) == h1 + spec_escaped(s1.drop_first()));
        assert(spec_escaped(s2) == h2 + spec_escaped(s2.drop_first()));
        let t1 = spec_escaped(s1.drop_first()) + a;
        let t2 = spec_escaped(s2.drop_first()) + b;
        assert(h1 + t1 =~= spec_escaped(s1) + a);
        assert(h2 + t2 =~= spec_escaped(s2) + b);
        assert((h1 + t1)[0] == h1[0]);
        assert((h2 + t2)[0] == h2[0]);
        if s1[0] == 34 || s1[0] == 92 {
            // Both sides must open with the escape byte.
            assert(h1[0] == 92);
            if !(s2[0] == 34 || s2[0] == 92) {
                assert(h2[0] == s2[0] && s2[0] != 92);
                assert(false);
            }
            assert((h1 + t1)[1] == h1[1]);
            assert((h2 + t2)[1] == h2[1]);
            assert(h1[1] == h2[1]);
            assert(s1[0] == s2[0]);
            assert(h1 == h2);
            lemma_concat_cancel(h1, t1, h2, t2);
            lemma_esc_strip(s1.drop_first(), s2.drop_first(), a, b);
            assert(s1.len() == s2.len());
            assert forall|i: int| 0 <= i < s1.len() implies s1[i] == s2[i] by {
                if i > 0 {
                    assert(s1.drop_first()[i - 1] == s1[i]);
                    assert(s2.drop_first()[i - 1] == s2[i]);
                }
            }
            assert(s1 =~= s2);
        } else {
            assert(h1[0] == s1[0] && s1[0] != 92 && s1[0] != 34);
            if s2[0] == 34 || s2[0] == 92 {
                assert(h2[0] == 92);
                assert(false);
            }
            assert(h2[0] == s2[0]);
            assert(s1[0] == s2[0]);
            assert(h1 == h2);
            lemma_concat_cancel(h1, t1, h2, t2);
            lemma_esc_strip(s1.drop_first(), s2.drop_first(), a, b);
            assert(s1.len() == s2.len());
            assert forall|i: int| 0 <= i < s1.len() implies s1[i] == s2[i] by {
                if i > 0 {
                    assert(s1.drop_first()[i - 1] == s1[i]);
                    assert(s2.drop_first()[i - 1] == s2[i]);
                }
            }
            assert(s1 =~= s2);
        }
    }
}

/// Serialisation is one to one: two checkpoints with the same byte
/// form agree on every field. Together with the loader's re-encoding
/// identity, a saved checkpoint loads back equal to the original,
/// field for field.
pub proof fn lemma_checkpoint_encoding_injective(a: &Checkpoint, b: &Checkpoint)
    requires
        a.enc_bytes() == b.enc_bytes(),
    ensures
        a.version == b.version,
        a.timestamp == b.timestamp,
        a.image_path@ == b.image_path@,
        a.image_hash@ == b.image_hash@,
        a.position == b.position,
        a.state@ == b.state@,
{
    let pa = vstd::utf8::encode_utf8(a.image_path@);
    let pb = vstd::utf8::encode_utf8(b.image_path@);
    let ha = vstd::utf8::encode_utf8(a.image_hash@);
    let hb = vstd::utf8::encode_utf8(b.image_hash@);
    let sa = vstd::utf8::encode_utf8(a.state@);
    let sb = vstd::utf8::encode_utf8(b.state@);
    // Step 1: the opening literal.
    let t1a = spec_dec(a.version as int) + (spec_lit_timestamp() + (spec_dec(a.timestamp as int)
        + (spec_lit_image_path() + (spec_escaped(pa) + (spec_lit_image_hash() + (spec_escaped(ha)
        + (spec_lit_position() + (spec_dec(a.position as int) + (spec_lit_state() + (spec_escaped(
        sa,
    ) + spec_lit_close()))))))))));
    let t1b = spec_dec(b.version as int) + (spec_lit_timestamp() + (spec_dec(b.timestamp as int)
        + (spec_lit_image_path() + (spec_escaped(pb) + (spec_lit_image_hash() + (spec_escaped(hb)
        + (spec_lit_position() + (spec_dec(b.position as int) + (spec_lit_state() + (spec_escaped(
        sb,
    ) + spec_lit_close()))))))))));
    lemma_concat_cancel(spec_lit_version(), t1a, spec_lit_version(), t1b);
    // Step 2: the version digits, closed by the comma of the next
    // literal.
    let t2a = spec_lit_timestamp() + (spec_dec(a.timestamp as int) + (spec_lit_image_path() + (
    spec_escaped(pa) + (spec_lit_image_hash() + (spec_escaped(ha) + (spec_lit_position() + (
    spec_dec(a.position as int) + (spec_lit_state() + (spec_escaped(sa) + spec_lit_close())))))))));
    let t2b = spec_lit_timestamp() + (spec_dec(b.timestamp as int) + (spec_lit_image_path() + (
    spec_escaped(pb) + (spec_lit_image_hash() + (spec_escaped(hb) + (spec_lit_position() + (
    spec_dec(b.position as int) + (spec_lit_state() + (spec_escaped(sb) + spec_lit_close())))))))));
    assert(t2a[0] == 44 && t2b[0] == 44);
    lemma_dec_strip(a.version as int, b.version as int, t2a, t2b);
    // Step 3: the timestamp literal and digits.
    let t3a = spec_dec(a.timestamp as int) + (spec_lit_image_path() + (spec_escaped(pa) + (
    spec_lit_image_hash() + (spec_escaped(ha) + (spec_lit_position() + (spec_dec(
        a.position as int,
    ) + (spec_lit_state() + (spec_escaped(sa) + spec_lit_close()))))))));
    let t3b = spec_dec(b.timestamp as int) + (spec_lit_image_path() + (spec_escaped(pb) + (
    spec_lit_image_hash() + (spec_escaped(hb) + (spec_lit_position() + (spec_dec(
        b.position as int,
    ) + (spec_lit_state() + (spec_escaped(sb) + spec_lit_close()))))))));
    lemma_concat_cancel(spec_lit_timestamp(), t3a, spec_lit_timestamp(), t3b);
    let t4a = spec_lit_image_path() + (spec_escaped(pa) + (spec_lit_image_hash() + (spec_escaped(
        ha,
    ) + (spec_lit_position() + (spec_dec(a.position as int) + (spec_lit_state() + (spec_escaped(
        sa,
    ) + spec_lit_close())))))));
    let t4b = spec_lit_image_path() + (spec_escaped(pb) + (spec_lit_image_hash() + (spec_escaped(
        hb,
    ) + (spec_lit_position() + (spec_dec(b.position as int) + (spec_lit_state() + (spec_escaped(
        sb,
    ) + spec_lit_close())))))));
    assert(t4a[0] == 44 && t4b[0] == 44);
    lemma_dec_strip(a.timestamp as int, b.timestamp as int, t4a, t4b);
    // Step 4: the path literal and its escaped value, closed by the
    // quote opening the hash literal.
    let t5a = spec_escaped(pa) + (spec_lit_image_hash() + (spec_escaped(ha) + (spec_lit_position()
        + (spec_dec(a.position as int) + (spec_lit_state() + (spec_escaped(sa)
        + spec_lit_close()))))));
    let t5b = spec_escaped(pb) + (spec_lit_image_hash() + (spec_escaped(hb) + (spec_lit_position()
        + (spec_dec(b.position as int) + (spec_lit_state() + (spec_escaped(sb)
        + spec_lit_close()))))));
    lemma_concat_cancel(spec_lit_image_path(), t5a, spec_lit_image_path(), t5b);
    let t6a = spec_lit_image_hash() + (spec_escaped(ha) + (spec_lit_position() + (spec_dec(
        a.position as int,
    ) + (spec_lit_state() + (spec_escaped(sa) + spec_lit_close())))));
    let t6b = spec_lit_image_hash() + (spec_escaped(hb) + (spec_lit_position() + (spec_dec(
        b.position as int,
    ) + (spec_lit_state() + (spec_escaped(sb) + spec_lit_close())))));
    assert(t6a[0] == 34 && t6b[0] == 34);
    lemma_esc_strip(pa, pb, t6a, t6b);
    vstd::utf8::encode_utf8_decode_utf8(a.image_path@);
    vstd::utf8::encode_utf8_decode_utf8(b.image_path@);
    // Step 5: the hash literal and its escaped value.
    let t7a = spec_escaped(ha) + (spec_lit_position() + (spec_dec(a.position as int) + (
    spec_lit_state() + (spec_escaped(sa) + spec_lit_close()))));
    let t7b = spec_escaped(hb) + (spec_lit_position() + (spec_dec(b.position as int) + (
    spec_lit_state() + (spec_escaped(sb) + spec_lit_close()))));
    lemma_concat_cancel(spec_lit_image_hash(), t7a, spec_lit_image_hash(), t7b);
    let t8a = spec_lit_position() + (spec_dec(a.position as int) + (spec_lit_state() + (
    spec_escaped(sa) + spec_lit_close())));
    let t8b = spec_lit_position() + (spec_dec(b.position as int) + (spec_lit_state() + (
    spec_escaped(sb) + spec_lit_close())));
    assert(t8a[0] == 34 && t8b[0] == 34);
    lemma_esc_strip(ha, hb, t8a, t8b);
    vstd::utf8::encode_utf8_decode_utf8(a.image_hash@);
    vstd::utf8::encode_utf8_decode_utf8(b.image_hash@);
    // Step 6: the position literal and digits.
    let t9a = spec_dec(a.position as int) + (spec_lit_state() + (spec_escaped(sa)
        + spec_lit_close()));
    let t9b = spec_dec(b.position as int) + (spec_lit_state() + (spec_escaped(sb)
        + spec_lit_close()));
    lemma_concat_cancel(spec_lit_position(), t9a, spec_lit_position(), t9b);
    let t10a = spec_lit_state() + (spec_escaped(sa) + spec_lit_close());
    let t10b = spec_lit_state() + (spec_escaped(sb) + spec_lit_close());
    assert(t10a[0] == 44 && t10b[0] == 44);
    lemma_dec_strip(a.position as int, b.position as int, t10a, t10b);
    // Step 7: the state literal and its escaped value, closed by the
    // final quote.
    let t11a = spec_escaped(sa) + spec_lit_close();
    let t11b = spec_escaped(sb) + spec_lit_close();
    lemma_concat_cancel(spec_lit_state(), t11a, spec_lit_state(), t11b);
    assert(spec_lit_close()[0] == 34);
    lemma_esc_strip(sa, sb, spec_lit_close(), spec_lit_close());
    vstd::utf8::encode_utf8_decode_utf8(a.state@);
    vstd::utf8::encode_utf8_decode_utf8(b.state@);
}

} // verus!
