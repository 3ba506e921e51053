//! Metadata records and the line-oriented cache file format.
//!
//! One record describes one backup artifact and is serialized as one
//! self-contained line of text. A cache file holds the concatenation of such
//! lines; the loader splits a file into lines and parses every non-empty
//! line, rejecting the whole file if any line is malformed.

use crate::errors::ParseError;
use crate::text::{dec_chars, push_char, push_u64_decimal};
use vstd::prelude::*;

verus! {

/// A decimal digit byte.
pub open spec fn is_dec_byte(b: u8) -> bool {
    48 <= b <= 57
}

/// The ASCII byte for one decimal digit.
pub open spec fn dec_byte(d: nat) -> u8 {
    (48 + d) as u8
}

/// The canonical decimal rendering of `n` in ASCII bytes: no sign, no
/// leading zeros.
pub open spec fn dec_bytes(n: nat) -> Seq<u8>
    decreases n,
{
    if n < 10 {
        seq![dec_byte(n)]
    } else {
        dec_bytes(n / 10).push(dec_byte(n % 10))
    }
}

/// The value of a sequence of decimal digit bytes, most significant first.
pub open spec fn dec_val(s: Seq<u8>) -> nat
    decreases s.len(),
{
    if s.len() == 0 {
        0
    } else {
        dec_val(s.drop_last()) * 10 + (s.last() - 48) as nat
    }
}

/// Shape of a canonical rendering: `dec_bytes(n)` is a nonempty sequence of
/// digit bytes, without leading zeros, whose value is `n` again.
pub proof fn lemma_dec_bytes_props(n: nat)
    ensures
        dec_bytes(n).len() >= 1,
        forall|i: int| 0 <= i < dec_bytes(n).len() ==> is_dec_byte(#[trigger] dec_bytes(n)[i]),
        dec_val(dec_bytes(n)) == n,
        n >= 1 ==> dec_bytes(n)[0] != 48,
        n < 10 ==> dec_bytes(n).len() == 1,
        n >= 10 ==> dec_bytes(n).len() >= 2,
    decreases n,
{
    if n < 10 {
        let s = seq![dec_byte(n)];
        assert(s.drop_last() =~= Seq::<u8>::empty());
        assert(dec_val(Seq::<u8>::empty()) == 0);
        assert(dec_val(s) == dec_val(s.drop_last()) * 10 + (s.last() - 48) as nat);
    } else {
        lemma_dec_bytes_props(n / 10);
        let s = dec_bytes(n);
        assert(s == dec_bytes(n / 10).push(dec_byte(n % 10)));
        assert(s.drop_last() =~= dec_bytes(n / 10));
        assert(s.last() == dec_byte(n % 10));
        assert(dec_val(s) == dec_val(dec_bytes(n / 10)) * 10 + (n % 10));
        assert(s[0] == dec_bytes(n / 10)[0]);
    }
}

/// A nonempty digit string that does not start with `0` has a positive value.
pub proof fn lemma_dec_val_pos(s: Seq<u8>)
    requires
        s.len() >= 1,
        forall|i: int| 0 <= i < s.len() ==> is_dec_byte(#[trigger] s[i]),
        s[0] != 48,
    ensures
        dec_val(s) >= 1,
    decreases s.len(),
{
    if s.len() == 1 {
        assert(s.drop_last() =~= Seq::<u8>::empty());
        assert(dec_val(Seq::<u8>::empty()) == 0);
        assert(dec_val(s) == dec_val(s.drop_last()) * 10 + (s.last() - 48) as nat);
    } else {
        lemma_dec_val_pos(s.drop_last());
        assert(dec_val(s) == dec_val(s.drop_last()) * 10 + (s.last() - 48) as nat);
    }
}

/// Appending digit bytes never lowers the value.
pub proof fn lemma_dec_val_extend(s: Seq<u8>, t: Seq<u8>)
    requires
        forall|i: int| 0 <= i < t.len() ==> is_dec_byte(#[trigger] t[i]),
    ensures
        dec_val(s + t) >= dec_val(s),
    decreases t.len(),
{
    if t.len() == 0 {
        assert(s + t =~= s);
    } else {
        lemma_dec_val_extend(s, t.drop_last());
        assert((s + t).drop_last() =~= s + t.drop_last());
        assert(dec_val(s + t) == dec_val(s + t.drop_last()) * 10 + ((s + t).last() - 48) as nat);
    }
}

/// Canonicality: a nonempty digit string without leading zeros is the
/// rendering of its own value — the decimal grammar is unambiguous.
pub proof fn lemma_canonical_dec(s: Seq<u8>)
    requires
        s.len() >= 1,
        forall|i: int| 0 <= i < s.len() ==> is_dec_byte(#[trigger] s[i]),
        s.len() > 1 ==> s[0] != 48,
    ensures
        dec_bytes(dec_val(s)) == s,
    decreases s.len(),
{
    if s.len() == 1 {
        assert(s.drop_last() =~= Seq::<u8>::empty());
        assert(dec_val(Seq::<u8>::empty()) == 0);
        assert(dec_val(s) == dec_val(s.drop_last()) * 10 + (s.last() - 48) as nat);
        assert(dec_val(s) == (s[0] - 48) as nat);
        assert(dec_bytes(dec_val(s)) =~= s);
    } else {
        let p = s.drop_last();
        let d = (s.last() - 48) as nat;
        assert(p[0] == s[0]);
        lemma_canonical_dec(p);
        lemma_dec_val_pos(p);
        let v = dec_val(s);
        assert(v == dec_val(p) * 10 + d);
        assert(v / 10 == dec_val(p) && v % 10 == d) by (nonlinear_arith)
            requires
                v == dec_val(p) * 10 + d,
                0 <= d < 10,
        ;
        assert(v >= 10) by (nonlinear_arith)
            requires
                v == dec_val(p) * 10 + d,
                dec_val(p) >= 1,
                d >= 0,
        ;
        assert(dec_bytes(v) == dec_bytes(v / 10).push(dec_byte(v % 10)));
        assert(dec_bytes(v) =~= s);
    }
}

/// Append the canonical decimal rendering of `n`, as bytes, to `out`.
pub fn push_u64_dec_bytes(out: &mut Vec<u8>, n: u64)
    ensures
        final(out)@ == old(out)@ + dec_bytes(n as nat),
{
    let mut digits: Vec<u8> = Vec::new();
    let mut m: u64 = n;
    loop
        invariant_except_break
            digits@.len() > 0 ==> m != 0,
            dec_bytes(n as nat) == dec_bytes(m as nat) + digits@.reverse(),
        ensures
            dec_bytes(n as nat) == digits@.reverse(),
        decreases m,
    {
        let b: u8 = 48 + (m % 10) as u8;
        let ghost prev = digits@;
        digits.push(b);
        proof {
            assert(digits@.reverse() =~= seq![b] + prev.reverse());
        }
        if m < 10 {
            proof {
                assert(dec_bytes(m as nat) == seq![dec_byte((m % 10) as nat)]);
                assert(dec_bytes(n as nat) =~= digits@.reverse());
            }
            break;
        }
        proof {
            assert(dec_bytes(m as nat) == dec_bytes((m / 10) as nat).push(
                dec_byte((m % 10) as nat),
            ));
            assert(dec_bytes((m / 10) as nat) + digits@.reverse() =~= dec_bytes(m as nat)
                + prev.reverse());
        }
        m = m / 10;
    }
    let ghost start = out@;
    while digits.len() > 0
        invariant
            out@ + digits@.reverse() == start + dec_bytes(n as nat),
        decreases digits.len(),
    {
        let ghost prev = digits@;
        let b: u8 = digits.pop().unwrap();
        out.push(b);
        proof {
            assert(prev.reverse() =~= seq![b] + digits@.reverse());
            assert(out@ + digits@.reverse() =~= start + dec_bytes(n as nat));
        }
    }
    proof {
        assert(out@ =~= start + dec_bytes(n as nat));
    }
}

/// Parse the byte range `[from, to)` of `v` as a canonical decimal `u64`.
/// Returns the value exactly when the range is such a rendering.
pub fn parse_u64_dec(v: &Vec<u8>, from: usize, to: usize) -> (r: Option<u64>)
    requires
        from <= to <= v@.len(),
    ensures
        r matches Some(n) ==> v@.subrange(from as int, to as int) == dec_bytes(n as nat),
        r is None ==> forall|n: u64| v@.subrange(from as int, to as int) != dec_bytes(n as nat),
{
    let ghost s = v@.subrange(from as int, to as int);
    if from == to {
        proof {
            assert forall|n: u64| s != dec_bytes(n as nat) by {
                lemma_dec_bytes_props(n as nat);
            }
        }
        return None;
    }
    if v[from] == 48 && to - from > 1 {
        proof {
            assert forall|n: u64| s != dec_bytes(n as nat) by {
                lemma_dec_bytes_props(n as nat);
                if s == dec_bytes(n as nat) {
                    assert(dec_bytes(n as nat)[0] == s[0] == 48);
                    assert(dec_bytes(n as nat).len() == s.len() > 1);
                }
            }
        }
        return None;
    }
    let mut acc: u64 = 0;
    let mut i: usize = from;
    while i < to
        invariant
            from <= i <= to <= v@.len(),
            s == v@.subrange(from as int, to as int),
            forall|j: int| from <= j < i ==> is_dec_byte(#[trigger] v@[j]),
            acc as nat == dec_val(v@.subrange(from as int, i as int)),
        decreases to - i,
    {
        let b: u8 = v[i];
        if b < 48 || b > 57 {
            proof {
                assert forall|n: u64| s != dec_bytes(n as nat) by {
                    lemma_dec_bytes_props(n as nat);
                    if s == dec_bytes(n as nat) {
                        assert(is_dec_byte(dec_bytes(n as nat)[i - from]));
                        assert(dec_bytes(n as nat)[i - from] == v@[i as int]);
                    }
                }
            }
            return None;
        }
        let d: u64 = (b - 48) as u64;
        proof {
            let q = v@.subrange(from as int, i + 1 as int);
            assert(q =~= v@.subrange(from as int, i as int).push(v@[i as int]));
            assert(q.drop_last() =~= v@.subrange(from as int, i as int));
            assert(q.last() == v@[i as int]);
            assert(dec_val(q) == dec_val(q.drop_last()) * 10 + (q.last() - 48) as nat);
        }
        if acc > (u64::MAX - d) / 10 {
            proof {
                let p = v@.subrange(from as int, i + 1 as int);
                assert(dec_val(p) == acc as nat * 10 + d);
                assert(acc as nat * 10 + d > u64::MAX) by (nonlinear_arith)
                    requires
                        acc > (u64::MAX - d) / 10,
                        0 <= d < 10,
                        acc <= u64::MAX,
                ;
                assert forall|n: u64| s != dec_bytes(n as nat) by {
                    lemma_dec_bytes_props(n as nat);
                    if s == dec_bytes(n as nat) {
                        let rest = s.subrange(i + 1 - from, s.len() as int);
                        assert forall|j: int| 0 <= j < rest.len() implies is_dec_byte(
                            #[trigger] rest[j],
                        ) by {
                            assert(rest[j] == dec_bytes(n as nat)[i + 1 - from + j]);
                        }
                        assert(p =~= s.subrange(0, i + 1 - from));
                        assert(s =~= p + rest);
                        lemma_dec_val_extend(p, rest);
                        assert(dec_val(s) == n);
                    }
                }
            }
            return None;
        }
        proof {
            assert(acc * 10 + d <= u64::MAX) by (nonlinear_arith)
                requires
                    acc <= (u64::MAX - d) / 10,
                    0 <= d < 10,
            ;
        }
        acc = acc * 10 + d;
        i = i + 1;
    }
    proof {
        lemma_canonical_dec(s);
    }
    Some(acc)
}

/// One metadata record: the logical unit describing a backup artifact.
#[derive(Clone, Copy, Debug, PartialEq, Eq, Structural)]
pub enum Metadata {
    /// The record written by bootstrap, carrying a globally distinguishing
    /// identifier, so that an initialized catalog is never empty.
    Identity { id: u64 },
    /// A descriptor of one backed-up snapshot.
    Backup { version: u64 },
}

/// The tag bytes of an identity line: `identity`.
pub open spec fn identity_tag() -> Seq<u8> {
    seq![105u8, 100u8, 101u8, 110u8, 116u8, 105u8, 116u8, 121u8]
}

/// The tag bytes of a backup line: `backup`.
pub open spec fn backup_tag() -> Seq<u8> {
    seq![98u8, 97u8, 99u8, 107u8, 117u8, 112u8]
}

/// The tag with which a record's line begins.
pub open spec fn tag_of(m: Metadata) -> Seq<u8> {
    match m {
        Metadata::Identity { .. } => identity_tag(),
        Metadata::Backup { .. } => backup_tag(),
    }
}

/// The number a record carries.
pub open spec fn num_of(m: Metadata) -> nat {
    match m {
        Metadata::Identity { id } => id as nat,
        Metadata::Backup { version } => version as nat,
    }
}

/// The one-line serialization of a record: its tag, one space, and the
/// canonical decimal rendering of its number. Lines never contain a newline.
pub open spec fn line_of(m: Metadata) -> Seq<u8> {
    tag_of(m) + seq![32u8] + dec_bytes(num_of(m))
}

/// Shape of a serialized line: the first space stands right after the tag,
/// and everything after it is the record's number.
pub proof fn lemma_line_shape(m: Metadata)
    ensures
        tag_of(m).len() == 6 || tag_of(m).len() == 8,
        line_of(m).len() > tag_of(m).len() + 1,
        forall|i: int|
            0 <= i < tag_of(m).len() ==> #[trigger] line_of(m)[i] == tag_of(m)[i] && line_of(m)[i]
                != 32 && line_of(m)[i] != 10,
        line_of(m)[tag_of(m).len() as int] == 32,
        forall|i: int|
            tag_of(m).len() < i < line_of(m).len() ==> is_dec_byte(#[trigger] line_of(m)[i])
                && line_of(m)[i] != 32 && line_of(m)[i] != 10,
        line_of(m).subrange(tag_of(m).len() as int + 1, line_of(m).len() as int) == dec_bytes(
            num_of(m),
        ),
        forall|i: int| 0 <= i < line_of(m).len() ==> #[trigger] line_of(m)[i] != 10,
{
    lemma_dec_bytes_props(num_of(m));
    let t = tag_of(m).len() as int;
    let l = line_of(m);
    assert(forall|i: int| 0 <= i < t ==> #[trigger] l[i] == tag_of(m)[i]);
    match m {
        Metadata::Identity { .. } => {
            assert(tag_of(m)[0] == 105 && tag_of(m)[1] == 100 && tag_of(m)[2] == 101 && tag_of(
                m,
            )[3] == 110 && tag_of(m)[4] == 116 && tag_of(m)[5] == 105 && tag_of(m)[6] == 116
                && tag_of(m)[7] == 121);
        },
        Metadata::Backup { .. } => {
            assert(tag_of(m)[0] == 98 && tag_of(m)[1] == 97 && tag_of(m)[2] == 99 && tag_of(m)[3]
                == 107 && tag_of(m)[4] == 117 && tag_of(m)[5] == 112);
        },
    }
    assert forall|i: int| t < i < l.len() implies is_dec_byte(#[trigger] l[i]) && l[i] != 32 && l[i]
        != 10 by {
        assert(l[i] == dec_bytes(num_of(m))[i - t - 1]);
    }
    assert(l.subrange(t + 1, l.len() as int) =~= dec_bytes(num_of(m)));
}

/// Two different records never serialize to the same line: the grammar is
/// unambiguous.
pub proof fn lemma_line_injective(m1: Metadata, m2: Metadata)
    requires
        line_of(m1) == line_of(m2),
    ensures
        m1 == m2,
{
    lemma_line_shape(m1);
    lemma_line_shape(m2);
    lemma_dec_bytes_props(num_of(m1));
    lemma_dec_bytes_props(num_of(m2));
    assert(line_of(m1)[0] == tag_of(m1)[0]);
    assert(line_of(m2)[0] == tag_of(m2)[0]);
    match m1 {
        Metadata::Identity { .. } => {
            assert(m2 is Identity);
        },
        Metadata::Backup { .. } => {
            assert(m2 is Backup);
        },
    }
    let t = tag_of(m1).len() as int;
    assert(tag_of(m2).len() as int == t);
    assert(line_of(m1).subrange(t + 1, line_of(m1).len() as int) == dec_bytes(num_of(m1)));
    assert(line_of(m2).subrange(t + 1, line_of(m2).len() as int) == dec_bytes(num_of(m2)));
    assert(dec_val(dec_bytes(num_of(m1))) == dec_val(dec_bytes(num_of(m2))));
}

impl Metadata {
    /// Serialize the record as one self-contained line of text, without the
    /// trailing newline.
    pub fn to_text_line(&self) -> (r: Vec<u8>)
        ensures
            r@ == line_of(*self),
    {
        let mut out: Vec<u8> = Vec::new();
        match self {
            Metadata::Identity { id } => {
                out.push(105);
                out.push(100);
                out.push(101);
                out.push(110);
                out.push(116);
                out.push(105);
                out.push(116);
                out.push(121);
                out.push(32);
                proof {
                    assert(out@ =~= identity_tag() + seq![32u8]);
                }
                push_u64_dec_bytes(&mut out, *id);
                proof {
                    assert(out@ =~= line_of(*self));
                }
            },
            Metadata::Backup { version } => {
                out.push(98);
                out.push(97);
                out.push(99);
                out.push(107);
                out.push(117);
                out.push(112);
                out.push(32);
                proof {
                    assert(out@ =~= backup_tag() + seq![32u8]);
                }
                push_u64_dec_bytes(&mut out, *version);
                proof {
                    assert(out@ =~= line_of(*self));
                }
            },
        }
        out
    }
}

/// Parse the byte range `[from, to)` of `v` as one metadata record. Returns
/// the record exactly when the range is the serialization of one.
pub fn parse_line(v: &Vec<u8>, from: usize, to: usize) -> (r: Option<Metadata>)
    requires
        from <= to <= v@.len(),
    ensures
        r matches Some(m) ==> v@.subrange(from as int, to as int) == line_of(m),
        r is None ==> forall|m: Metadata| v@.subrange(from as int, to as int) != line_of(m),
{
    let ghost s = v@.subrange(from as int, to as int);
    let mut j: usize = from;
    while j < to && v[j] != 32
        invariant
            from <= j <= to <= v@.len(),
            forall|q: int| from <= q < j ==> v@[q] != 32,
        decreases to - j,
    {
        j = j + 1;
    }
    proof {
        assert forall|m: Metadata| s == line_of(m) implies j < to && j - from == tag_of(
            m,
        ).len() by {
            lemma_line_shape(m);
            let t = tag_of(m).len() as int;
            assert(s[t] == 32);
            assert(s[t] == v@[from + t]);
            assert(from + t < to);
            if from + t < j {
                assert(v@[from + t] != 32);
            }
            if j < from + t {
                assert(j < to);
                assert(v@[j as int] == s[j - from]);
                assert(s[j - from] != 32);
            }
        }
    }
    if j == to {
        return None;
    }
    let plen: usize = j - from;
    if plen == 8 {
        if v[from] == 105 && v[from + 1] == 100 && v[from + 2] == 101 && v[from + 3] == 110 && v[
            from + 4] == 116 && v[from + 5] == 105 && v[from + 6] == 116 && v[from + 7] == 121 {
            let num = parse_u64_dec(v, j + 1, to);
            match num {
                Some(id) => {
                    let m = Metadata::Identity { id };
                    proof {
                        lemma_line_shape(m);
                        assert(v@.subrange(j + 1 as int, to as int) == dec_bytes(id as nat));
                        assert forall|k: int| 0 <= k < s.len() implies s[k] == line_of(m)[k] by {
                            assert(s[k] == v@[from + k]);
                            if k > 8 {
                                assert(line_of(m)[k] == dec_bytes(id as nat)[k - 9]);
                                assert(v@[from + k] == v@.subrange(j + 1 as int, to as int)[k - 9]);
                            }
                        }
                        assert(s.len() == line_of(m).len());
                        assert(s =~= line_of(m));
                    }
                    Some(m)
                },
                None => {
                    proof {
                        assert forall|m: Metadata| s != line_of(m) by {
                            lemma_line_shape(m);
                            if s == line_of(m) {
                                assert(tag_of(m).len() == 8);
                                assert(m is Identity);
                                assert(s.subrange(9, s.len() as int) == dec_bytes(num_of(m)));
                                assert(v@.subrange(j + 1 as int, to as int) =~= s.subrange(
                                    9,
                                    s.len() as int,
                                ));
                            }
                        }
                    }
                    None
                },
            }
        } else {
            proof {
                assert forall|m: Metadata| s != line_of(m) by {
                    lemma_line_shape(m);
                    if s == line_of(m) {
                        assert(tag_of(m).len() == 8);
                        assert(m is Identity);
                        assert(forall|i: int|
                            0 <= i < 8 ==> #[trigger] v@[from + i] == s[i] && s[i] == line_of(
                                m,
                            )[i]);
                        assert(v@[from + 0] == 105 && v@[from + 1] == 100 && v@[from + 2] == 101
                            && v@[from + 3] == 110 && v@[from + 4] == 116 && v@[from + 5] == 105
                            && v@[from + 6] == 116 && v@[from + 7] == 121);
                    }
                }
            }
            None
        }
    } else if plen == 6 {
        if v[from] == 98 && v[from + 1] == 97 && v[from + 2] == 99 && v[from + 3] == 107 && v[from
            + 4] == 117 && v[from + 5] == 112 {
            let num = parse_u64_dec(v, j + 1, to);
            match num {
                Some(version) => {
                    let m = Metadata::Backup { version };
                    proof {
                        lemma_line_shape(m);
                        assert(v@.subrange(j + 1 as int, to as int) == dec_bytes(version as nat));
                        assert forall|k: int| 0 <= k < s.len() implies s[k] == line_of(m)[k] by {
                            assert(s[k] == v@[from + k]);
                            if k > 6 {
                                assert(line_of(m)[k] == dec_bytes(version as nat)[k - 7]);
                                assert(v@[from + k] == v@.subrange(j + 1 as int, to as int)[k - 7]);
                            }
                        }
                        assert(s.len() == line_of(m).len());
                        assert(s =~= line_of(m));
                    }
                    Some(m)
                },
                None => {
                    proof {
                        assert forall|m: Metadata| s != line_of(m) by {
                            lemma_line_shape(m);
                            if s == line_of(m) {
                                assert(tag_of(m).len() == 6);
                                assert(m is Backup);
                                assert(s.subrange(7, s.len() as int) == dec_bytes(num_of(m)));
                                assert(v@.subrange(j + 1 as int, to as int) =~= s.subrange(
                                    7,
                                    s.len() as int,
                                ));
                            }
                        }
                    }
                    None
                },
            }
        } else {
            proof {
                assert forall|m: Metadata| s != line_of(m) by {
                    lemma_line_shape(m);
                    if s == line_of(m) {
                        assert(tag_of(m).len() == 6);
                        assert(m is Backup);
                        assert(forall|i: int|
                            0 <= i < 6 ==> #[trigger] v@[from + i] == s[i] && s[i] == line_of(
                                m,
                            )[i]);
                        assert(v@[from + 0] == 98 && v@[from + 1] == 97 && v@[from + 2] == 99 && v@[
                            from + 3] == 107 && v@[from + 4] == 117 && v@[from + 5] == 112);
                    }
                }
            }
            None
        }
    } else {
        None
    }
}

/// A file's content split at newline bytes: the lines, in order, with the
/// separators removed. Splitting an empty content gives one empty line.
pub open spec fn split_lines(s: Seq<u8>) -> Seq<Seq<u8>>
    decreases s.len(),
{
    if s.len() == 0 {
        seq![Seq::<u8>::empty()]
    } else if s[0] == 10 {
        seq![Seq::<u8>::empty()] + split_lines(s.subrange(1, s.len() as int))
    } else {
        let rest = split_lines(s.subrange(1, s.len() as int));
        seq![seq![s[0]] + rest[0]] + rest.subrange(1, rest.len() as int)
    }
}

pub proof fn lemma_split_lines_len(s: Seq<u8>)
    ensures
        split_lines(s).len() >= 1,
    decreases s.len(),
{
    if s.len() > 0 {
        lemma_split_lines_len(s.subrange(1, s.len() as int));
    }
}

/// A newline-free content is one single line.
pub proof fn lemma_split_lines_single(s: Seq<u8>)
    requires
        forall|i: int| 0 <= i < s.len() ==> s[i] != 10,
    ensures
        split_lines(s) == seq![s],
    decreases s.len(),
{
    if s.len() == 0 {
        assert(split_lines(s) =~~= seq![s]);
    } else {
        let t = s.subrange(1, s.len() as int);
        assert forall|i: int| 0 <= i < t.len() implies t[i] != 10 by {
            assert(t[i] == s[i + 1]);
        }
        lemma_split_lines_single(t);
        let rest = split_lines(t);
        assert(rest == seq![t]);
        assert(rest[0] == t);
        assert(seq![s[0]] + t =~= s);
        assert(rest.subrange(1, rest.len() as int) =~= Seq::<Seq<u8>>::empty());
        assert(split_lines(s) == seq![seq![s[0]] + rest[0]] + rest.subrange(1, rest.len() as int));
        assert(split_lines(s) =~= seq![s]);
    }
}

/// Splitting at the first newline: a newline-free prefix becomes the first
/// line and the remainder is split on its own.
pub proof fn lemma_split_lines_step(a: Seq<u8>, b: Seq<u8>)
    requires
        forall|i: int| 0 <= i < a.len() ==> a[i] != 10,
    ensures
        split_lines(a + seq![10u8] + b) == seq![a] + split_lines(b),
    decreases a.len(),
{
    let s = a + seq![10u8] + b;
    if a.len() == 0 {
        assert(s[0] == 10);
        assert(s.subrange(1, s.len() as int) =~= b);
        assert(split_lines(s) =~~= seq![a] + split_lines(b));
    } else {
        let a2 = a.subrange(1, a.len() as int);
        assert forall|i: int| 0 <= i < a2.len() implies a2[i] != 10 by {
            assert(a2[i] == a[i + 1]);
        }
        lemma_split_lines_step(a2, b);
        lemma_split_lines_len(b);
        assert(s[0] == a[0] && s[0] != 10);
        assert(s.subrange(1, s.len() as int) =~= a2 + seq![10u8] + b);
        let rest = split_lines(a2 + seq![10u8] + b);
        assert(rest == seq![a2] + split_lines(b));
        assert(rest[0] == a2);
        assert(seq![s[0]] + rest[0] =~= a);
        assert(rest.subrange(1, rest.len() as int) =~= split_lines(b));
        assert(split_lines(s) == seq![seq![s[0]] + rest[0]] + rest.subrange(1, rest.len() as int));
        assert(split_lines(s) =~= seq![a] + split_lines(b));
    }
}

/// Whether a line is the serialization of some record.
pub open spec fn is_metadata_line(l: Seq<u8>) -> bool {
    exists|m: Metadata| l == line_of(m)
}

/// The record a valid line serializes.
pub open spec fn line_meta(l: Seq<u8>) -> Metadata {
    choose|m: Metadata| l == line_of(m)
}

/// The records of a sequence of lines, in line order, empty lines skipped.
pub open spec fn lines_records(ls: Seq<Seq<u8>>) -> Seq<Metadata>
    decreases ls.len(),
{
    if ls.len() == 0 {
        Seq::empty()
    } else if ls.last().len() == 0 {
        lines_records(ls.drop_last())
    } else {
        lines_records(ls.drop_last()).push(line_meta(ls.last()))
    }
}

/// Whether every non-empty line of a file's content is a serialized record.
pub open spec fn file_parses(s: Seq<u8>) -> bool {
    forall|i: int|
        0 <= i < split_lines(s).len() && #[trigger] split_lines(s)[i].len() > 0
            ==> is_metadata_line(split_lines(s)[i])
}

/// The records a file's content holds, in line order.
pub open spec fn file_records(s: Seq<u8>) -> Seq<Metadata> {
    lines_records(split_lines(s))
}

/// Read a cache file's content as metadata records: split into lines and
/// parse every non-empty one. A single malformed line rejects the file.
pub fn load_metadata_lines(v: &Vec<u8>) -> (r: Result<Vec<Metadata>, ParseError>)
    ensures
        r matches Ok(ms) ==> file_parses(v@) && ms@ == file_records(v@),
        r is Err ==> !file_parses(v@),
{
    let n: usize = v.len();
    let mut out: Vec<Metadata> = Vec::new();
    let mut i: usize = 0;
    let ghost mut done: Seq<Seq<u8>> = Seq::empty();
    proof {
        assert(v@.subrange(0, n as int) =~= v@);
        assert(Seq::<Seq<u8>>::empty() + split_lines(v@) =~= split_lines(v@));
    }
    loop
        invariant_except_break
            0 <= i <= n,
            n == v@.len(),
            split_lines(v@) == done + split_lines(v@.subrange(i as int, n as int)),
            forall|j: int|
                0 <= j < done.len() && #[trigger] done[j].len() > 0 ==> is_metadata_line(done[j]),
            out@ == lines_records(done),
        ensures
            file_parses(v@),
            out@ == file_records(v@),
        decreases n - i,
    {
        let start: usize = i;
        while i < n && v[i] != 10
            invariant
                start <= i <= n,
                n == v@.len(),
                forall|q: int| start <= q < i ==> v@[q] != 10,
            decreases n - i,
        {
            i = i + 1;
        }
        let ghost seg = v@.subrange(start as int, i as int);
        proof {
            if i < n {
                assert(v@.subrange(start as int, n as int) =~= seg + seq![10u8] + v@.subrange(
                    i + 1 as int,
                    n as int,
                ));
                lemma_split_lines_step(seg, v@.subrange(i + 1 as int, n as int));
            } else {
                assert(v@.subrange(start as int, n as int) =~= seg);
                lemma_split_lines_single(seg);
            }
        }
        if i > start {
            match parse_line(v, start, i) {
                Some(m) => {
                    out.push(m);
                    proof {
                        assert(is_metadata_line(seg));
                        let m2 = line_meta(seg);
                        assert(seg == line_of(m2));
                        lemma_line_injective(m2, m);
                        let dp = done.push(seg);
                        assert(dp.drop_last() =~= done);
                        assert(out@ == lines_records(dp));
                        done = dp;
                    }
                },
                None => {
                    proof {
                        assert(split_lines(v@)[done.len() as int] == seg);
                        assert(seg.len() > 0);
                        assert(!is_metadata_line(seg));
                        assert(!file_parses(v@));
                    }
                    return Err(ParseError);
                },
            }
        } else {
            proof {
                let dp = done.push(seg);
                assert(dp.drop_last() =~= done);
                assert(out@ == lines_records(dp));
                done = dp;
            }
        }
        if i == n {
            proof {
                assert(split_lines(v@) =~= done);
                assert forall|j: int|
                    0 <= j < split_lines(v@).len() && #[trigger] split_lines(v@)[j].len()
                        > 0 implies is_metadata_line(split_lines(v@)[j]) by {
                    assert(split_lines(v@)[j] == done[j]);
                }
            }
            break;
        }
        i = i + 1;
    }
    Ok(out)
}

/// An aggregated, order-preserving, read-only collection of all metadata
/// records currently known; built fresh on every synchronization call and
/// owned exclusively by the caller after return.
#[derive(Debug)]
pub struct MetadataView {
    records: Vec<Metadata>,
}

impl View for MetadataView {
    type V = Seq<Metadata>;

    closed spec fn view(&self) -> Seq<Metadata> {
        self.records@
    }
}

impl MetadataView {
    /// Wrap the aggregated records.
    pub fn from_records(records: Vec<Metadata>) -> (r: MetadataView)
        ensures
            r@ == records@,
    {
        MetadataView { records }
    }

    /// All records, in aggregation order.
    pub fn records(&self) -> (r: &Vec<Metadata>)
        ensures
            r@ == self@,
    {
        &self.records
    }

    /// The number of records.
    pub fn len(&self) -> (n: usize)
        ensures
            n == self@.len(),
    {
        self.records.len()
    }
}

/// The catalog name under which a record is saved.
pub open spec fn name_of(m: Metadata) -> Seq<char> {
    match m {
        Metadata::Identity { .. } => seq![
            'i',
            'd',
            'e',
            'n',
            't',
            'i',
            't',
            'y',
            '.',
            'm',
            'e',
            't',
            'a',
        ],
        Metadata::Backup { version } => seq!['b', 'a', 'c', 'k', 'u', 'p', '_'] + dec_chars(
            version as nat,
        ) + seq!['.', 'm', 'e', 't', 'a'],
    }
}

impl Metadata {
    /// The catalog name under which this record is saved.
    pub fn name(&self) -> (r: String)
        ensures
            r@ == name_of(*self),
    {
        let mut s: String = String::new();
        match self {
            Metadata::Identity { .. } => {
                push_char(&mut s, 'i');
                push_char(&mut s, 'd');
                push_char(&mut s, 'e');
                push_char(&mut s, 'n');
                push_char(&mut s, 't');
                push_char(&mut s, 'i');
                push_char(&mut s, 't');
                push_char(&mut s, 'y');
                push_char(&mut s, '.');
                push_char(&mut s, 'm');
                push_char(&mut s, 'e');
                push_char(&mut s, 't');
                push_char(&mut s, 'a');
                proof {
                    assert(s@ =~= name_of(*self));
                }
            },
            Metadata::Backup { version } => {
                push_char(&mut s, 'b');
                push_char(&mut s, 'a');
                push_char(&mut s, 'c');
                push_char(&mut s, 'k');
                push_char(&mut s, 'u');
                push_char(&mut s, 'p');
                push_char(&mut s, '_');
                push_u64_decimal(&mut s, *version);
                push_char(&mut s, '.');
                push_char(&mut s, 'm');
                push_char(&mut s, 'e');
                push_char(&mut s, 't');
                push_char(&mut s, 'a');
                proof {
                    assert(s@ =~= name_of(*self));
                }
            },
        }
        s
    }
}

} // verus!
