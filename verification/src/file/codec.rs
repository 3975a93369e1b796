//! The snapshot's byte format, specified to the bit and proved to round
//! trip: decoding what was encoded yields the original trees.
//!
//! Layout, all integers little-endian: the snapshot is a tree count over
//! the volume trees in order; a tree is its name's character count, the
//! characters as four-byte scalar values, its child count, then the
//! children. Decoding rejects anything else: a short buffer, a value that
//! is no Unicode scalar, or trailing bytes.

use vstd::arithmetic::div_mod::lemma_fundamental_div_mod;
use vstd::prelude::*;

use crate::error::CaverError;
use crate::error::CaverResult;
use crate::file::file_model;
use crate::file::files_model;
use crate::file::lemma_files_model;
use crate::file::index::FileIndex;
use crate::file::File;
use crate::file::FileModel;
use crate::text::push_char;

verus! {

/// Relies on `char::from_u32`: yields the character with the given scalar
/// value exactly when the value is a Unicode scalar value.
pub assume_specification[ char::from_u32 ](v: u32) -> (r: Option<char>)
    ensures
        r is Some <==> vstd::utf8::is_scalar(v),
        r matches Some(c) ==> c as u32 == v,
;

pub open spec fn spec_enc_u64(x: u64) -> Seq<u8> {
    seq![
        (x % 256) as u8,
        ((x / 256) % 256) as u8,
        ((x / 0x10000) % 256) as u8,
        ((x / 0x1000000) % 256) as u8,
        ((x / 0x100000000) % 256) as u8,
        ((x / 0x10000000000) % 256) as u8,
        ((x / 0x1000000000000) % 256) as u8,
        ((x / 0x100000000000000) % 256) as u8,
    ]
}

pub open spec fn spec_enc_u32(x: u32) -> Seq<u8> {
    seq![
        (x % 256) as u8,
        ((x / 256) % 256) as u8,
        ((x / 0x10000) % 256) as u8,
        ((x / 0x1000000) % 256) as u8,
    ]
}

/// The value eight little-endian bytes spell.
pub open spec fn spec_dec_u64(b: Seq<u8>) -> int {
    b[0] + 256 * b[1] + 0x10000 * b[2] + 0x1000000 * b[3] + 0x100000000 * b[4] + 0x10000000000
        * b[5] + 0x1000000000000 * b[6] + 0x100000000000000 * b[7]
}

pub open spec fn spec_dec_u32(b: Seq<u8>) -> int {
    b[0] + 256 * b[1] + 0x10000 * b[2] + 0x1000000 * b[3]
}

pub proof fn lemma_dec_enc_u64(x: u64)
    ensures
        spec_dec_u64(spec_enc_u64(x)) == x,
{
    lemma_fundamental_div_mod(x as int, 256);
    lemma_fundamental_div_mod(x as int / 256, 256);
    lemma_fundamental_div_mod(x as int / 0x10000, 256);
    lemma_fundamental_div_mod(x as int / 0x1000000, 256);
    lemma_fundamental_div_mod(x as int / 0x100000000, 256);
    lemma_fundamental_div_mod(x as int / 0x10000000000, 256);
    lemma_fundamental_div_mod(x as int / 0x1000000000000, 256);
    lemma_fundamental_div_mod(x as int / 0x100000000000000, 256);
    assert(x as int / 256 / 256 == x as int / 0x10000) by (nonlinear_arith);
    assert(x as int / 0x10000 / 256 == x as int / 0x1000000) by (nonlinear_arith);
    assert(x as int / 0x1000000 / 256 == x as int / 0x100000000) by (nonlinear_arith);
    assert(x as int / 0x100000000 / 256 == x as int / 0x10000000000) by (nonlinear_arith);
    assert(x as int / 0x10000000000 / 256 == x as int / 0x1000000000000) by (nonlinear_arith);
    assert(x as int / 0x1000000000000 / 256 == x as int / 0x100000000000000) by (nonlinear_arith);
    assert(x as int / 0x100000000000000 / 256 == 0) by (nonlinear_arith);
}

pub proof fn lemma_dec_enc_u32(x: u32)
    ensures
        spec_dec_u32(spec_enc_u32(x)) == x,
{
    lemma_fundamental_div_mod(x as int, 256);
    lemma_fundamental_div_mod(x as int / 256, 256);
    lemma_fundamental_div_mod(x as int / 0x10000, 256);
    assert(x as int / 256 / 256 == x as int / 0x10000) by (nonlinear_arith);
    assert(x as int / 0x10000 / 256 == x as int / 0x1000000) by (nonlinear_arith);
    assert(x as int / 0x1000000 / 256 == 0) by (nonlinear_arith);
}

pub open spec fn spec_enc_chars(s: Seq<char>) -> Seq<u8>
    decreases s.len(),
{
    if s.len() == 0 {
        Seq::empty()
    } else {
        spec_enc_u32(s[0] as u32) + spec_enc_chars(s.drop_first())
    }
}

/// A model small enough to encode: every length fits the length field.
pub open spec fn spec_enc_ok(m: FileModel) -> bool
    decreases m,
{
    &&& m.name.len() <= u64::MAX
    &&& m.children.len() <= u64::MAX
    &&& forall|i: int| 0 <= i < m.children.len() ==> spec_enc_ok(#[trigger] m.children[i])
}

pub open spec fn spec_enc_ok_forest(s: Seq<FileModel>) -> bool {
    forall|i: int| 0 <= i < s.len() ==> spec_enc_ok(#[trigger] s[i])
}

pub open spec fn spec_enc_node(m: FileModel) -> Seq<u8>
    decreases m, 0int,
{
    spec_enc_u64(m.name.len() as u64) + spec_enc_chars(m.name) + spec_enc_u64(
        m.children.len() as u64,
    ) + spec_enc_forest(m.children)
}

pub open spec fn spec_enc_forest(s: Seq<FileModel>) -> Seq<u8>
    decreases s, 1int,
{
    if s.len() == 0 {
        Seq::empty()
    } else {
        spec_enc_node(s[0]) + spec_enc_forest(s.drop_first())
    }
}

/// The whole snapshot's bytes.
pub open spec fn spec_enc_index(disks: Seq<FileModel>) -> Seq<u8> {
    spec_enc_u64(disks.len() as u64) + spec_enc_forest(disks)
}

pub open spec fn spec_dec_u64_at(b: Seq<u8>, pos: int) -> Option<(int, int)> {
    if 0 <= pos && pos + 8 <= b.len() {
        Some((spec_dec_u64(b.subrange(pos, pos + 8)), pos + 8))
    } else {
        None
    }
}

pub open spec fn spec_dec_char_at(b: Seq<u8>, pos: int) -> Option<(char, int)> {
    if 0 <= pos && pos + 4 <= b.len() {
        let v = spec_dec_u32(b.subrange(pos, pos + 4)) as u32;
        if vstd::utf8::is_scalar(v) {
            Some((v as char, pos + 4))
        } else {
            None
        }
    } else {
        None
    }
}

pub open spec fn spec_dec_chars_at(b: Seq<u8>, pos: int, count: int) -> Option<(Seq<char>, int)>
    decreases count,
{
    if count <= 0 {
        Some((Seq::empty(), pos))
    } else {
        match spec_dec_char_at(b, pos) {
            Some((c, p1)) => match spec_dec_chars_at(b, p1, count - 1) {
                Some((rest, p2)) => Some((seq![c] + rest, p2)),
                None => None,
            },
            None => None,
        }
    }
}

pub open spec fn spec_dec_node_at(b: Seq<u8>, pos: int) -> Option<(FileModel, int)>
    decreases b.len() - pos, 0int, 0int,
{
    match spec_dec_u64_at(b, pos) {
        Some((nl, p1)) => match spec_dec_chars_at(b, p1, nl) {
            Some((name, p2)) => match spec_dec_u64_at(b, p2) {
                Some((cnt, p3)) => {
                    if pos < p3 <= b.len() {
                        match spec_dec_forest_at(b, p3, cnt) {
                            Some((children, p4)) => Some((FileModel { name, children }, p4)),
                            None => None,
                        }
                    } else {
                        None
                    }
                },
                None => None,
            },
            None => None,
        },
        None => None,
    }
}

pub open spec fn spec_dec_forest_at(b: Seq<u8>, pos: int, count: int) -> Option<
    (Seq<FileModel>, int),
>
    decreases b.len() - pos, count, 1int,
{
    if count <= 0 {
        Some((Seq::empty(), pos))
    } else {
        match spec_dec_node_at(b, pos) {
            Some((n0, p1)) => {
                if pos < p1 <= b.len() {
                    match spec_dec_forest_at(b, p1, count - 1) {
                        Some((rest, p2)) => Some((seq![n0] + rest, p2)),
                        None => None,
                    }
                } else {
                    None
                }
            },
            None => None,
        }
    }
}

/// What a byte blob decodes to: the volume trees, provided every byte is
/// accounted for.
pub open spec fn spec_dec_index(b: Seq<u8>) -> Option<Seq<FileModel>> {
    match spec_dec_u64_at(b, 0) {
        Some((cnt, p1)) => match spec_dec_forest_at(b, p1, cnt) {
            Some((disks, p2)) => {
                if p2 == b.len() {
                    Some(disks)
                } else {
                    None
                }
            },
            None => None,
        },
        None => None,
    }
}

pub proof fn lemma_enc_chars_len(s: Seq<char>)
    ensures
        spec_enc_chars(s).len() == 4 * s.len(),
    decreases s.len(),
{
    if s.len() > 0 {
        lemma_enc_chars_len(s.drop_first());
    }
}

proof fn lemma_dec_u64_at_enc(b: Seq<u8>, pos: int, x: u64)
    requires
        0 <= pos,
        pos + 8 <= b.len(),
        b.subrange(pos, pos + 8) == spec_enc_u64(x),
    ensures
        spec_dec_u64_at(b, pos) == Some((x as int, pos + 8)),
{
    lemma_dec_enc_u64(x);
}

proof fn lemma_dec_char_at_enc(b: Seq<u8>, pos: int, c: char)
    requires
        0 <= pos,
        pos + 4 <= b.len(),
        b.subrange(pos, pos + 4) == spec_enc_u32(c as u32),
    ensures
        spec_dec_char_at(b, pos) == Some((c, pos + 4)),
{
    lemma_dec_enc_u32(c as u32);
    vstd::utf8::char_is_scalar(c);
    vstd::utf8::char_u32_cast(c, c as u32);
}

proof fn lemma_dec_chars_at_enc(b: Seq<u8>, pos: int, s: Seq<char>)
    requires
        0 <= pos,
        pos + 4 * s.len() <= b.len(),
        b.subrange(pos, pos + 4 * s.len()) == spec_enc_chars(s),
    ensures
        spec_dec_chars_at(b, pos, s.len() as int) == Some((s, pos + 4 * s.len())),
    decreases s.len(),
{
    if s.len() == 0 {
        assert(Seq::<char>::empty() =~= s);
    } else {
        let e = spec_enc_chars(s);
        lemma_enc_chars_len(s.drop_first());
        assert(b.subrange(pos, pos + 4) =~= spec_enc_u32(s[0] as u32)) by {
            assert forall|i: int| 0 <= i < 4 implies #[trigger] b.subrange(pos, pos + 4)[i]
                == spec_enc_u32(s[0] as u32)[i] by {
                assert(b.subrange(pos, pos + 4 * s.len())[i] == b[pos + i]);
            }
        }
        lemma_dec_char_at_enc(b, pos, s[0]);
        assert(b.subrange(pos + 4, pos + 4 + 4 * s.drop_first().len()) =~= spec_enc_chars(
            s.drop_first(),
        )) by {
            assert forall|i: int|
                0 <= i < 4 * s.drop_first().len() implies b.subrange(
                pos + 4,
                pos + 4 + 4 * s.drop_first().len(),
            )[i] == spec_enc_chars(s.drop_first())[i] by {
                assert(b.subrange(pos, pos + 4 * s.len())[4 + i] == b[pos + 4 + i]);
            }
        }
        lemma_dec_chars_at_enc(b, pos + 4, s.drop_first());
        assert(seq![s[0]] + s.drop_first() =~= s);
    }
}

proof fn lemma_dec_node_at_enc(b: Seq<u8>, pos: int, m: FileModel)
    requires
        spec_enc_ok(m),
        0 <= pos,
        pos + spec_enc_node(m).len() <= b.len(),
        b.subrange(pos, pos + spec_enc_node(m).len()) == spec_enc_node(m),
    ensures
        spec_dec_node_at(b, pos) == Some((m, pos + spec_enc_node(m).len())),
    decreases m, 0int,
{
    let e = spec_enc_node(m);
    let nl = m.name.len() as int;
    let cnt = m.children.len() as int;
    lemma_enc_chars_len(m.name);
    let p1 = pos + 8;
    let p2 = p1 + 4 * nl;
    let p3 = p2 + 8;
    let p4 = pos + e.len();
    let fo = spec_enc_forest(m.children);
    assert(e == spec_enc_u64(nl as u64) + spec_enc_chars(m.name) + spec_enc_u64(cnt as u64) + fo);
    assert(e.len() == 16 + 4 * nl + fo.len());
    assert forall|i: int| 0 <= i < e.len() implies e[i] == b[pos + i] by {
        assert(b.subrange(pos, pos + e.len())[i] == b[pos + i]);
    }
    assert(b.subrange(pos, p1) =~= spec_enc_u64(nl as u64));
    lemma_dec_u64_at_enc(b, pos, nl as u64);
    assert(b.subrange(p1, p1 + 4 * nl) =~= spec_enc_chars(m.name)) by {
        assert forall|i: int| 0 <= i < 4 * nl implies b.subrange(p1, p1 + 4 * nl)[i]
            == spec_enc_chars(m.name)[i] by {
            assert(e[8 + i] == b[pos + 8 + i]);
        }
    }
    lemma_dec_chars_at_enc(b, p1, m.name);
    assert(b.subrange(p2, p3) =~= spec_enc_u64(cnt as u64)) by {
        assert forall|i: int| 0 <= i < 8 implies b.subrange(p2, p3)[i] == spec_enc_u64(
            cnt as u64,
        )[i] by {
            assert(e[8 + 4 * nl + i] == b[pos + 8 + 4 * nl + i]);
        }
    }
    lemma_dec_u64_at_enc(b, p2, cnt as u64);
    assert(b.subrange(p3, p4) =~= fo) by {
        assert forall|i: int| 0 <= i < fo.len() implies b.subrange(p3, p4)[i] == fo[i] by {
            assert(e[16 + 4 * nl + i] == b[pos + 16 + 4 * nl + i]);
        }
    }
    lemma_dec_forest_at_enc(b, p3, m.children);
    assert(FileModel { name: m.name, children: m.children } == m);
}

proof fn lemma_dec_forest_at_enc(b: Seq<u8>, pos: int, s: Seq<FileModel>)
    requires
        spec_enc_ok_forest(s),
        s.len() <= u64::MAX,
        0 <= pos,
        pos + spec_enc_forest(s).len() <= b.len(),
        b.subrange(pos, pos + spec_enc_forest(s).len()) == spec_enc_forest(s),
    ensures
        spec_dec_forest_at(b, pos, s.len() as int) == Some((s, pos + spec_enc_forest(s).len())),
    decreases s, 1int,
{
    if s.len() == 0 {
        assert(Seq::<FileModel>::empty() =~= s);
    } else {
        let e = spec_enc_forest(s);
        let e0 = spec_enc_node(s[0]);
        let rest = spec_enc_forest(s.drop_first());
        assert(e == e0 + rest);
        assert forall|i: int| 0 <= i < e.len() implies e[i] == b[pos + i] by {
            assert(b.subrange(pos, pos + e.len())[i] == b[pos + i]);
        }
        assert(b.subrange(pos, pos + e0.len()) =~= e0);
        lemma_dec_node_at_enc(b, pos, s[0]);
        let p1 = pos + e0.len();
        lemma_enc_chars_len(s[0].name);
        assert(e0.len() >= 16);
        assert(b.subrange(p1, p1 + rest.len()) =~= rest) by {
            assert forall|i: int| 0 <= i < rest.len() implies b.subrange(p1, p1 + rest.len())[i]
                == rest[i] by {
                assert(e[e0.len() + i] == b[pos + e0.len() + i]);
            }
        }
        lemma_dec_forest_at_enc(b, p1, s.drop_first());
        assert(seq![s[0]] + s.drop_first() =~= s);
    }
}

/// Decoding an encoded snapshot yields exactly the trees that were
/// encoded: the persisted cache loses nothing of any volume's shape or
/// names.
pub proof fn lemma_codec_round_trip(disks: Seq<FileModel>)
    requires
        spec_enc_ok_forest(disks),
        disks.len() <= u64::MAX,
    ensures
        spec_dec_index(spec_enc_index(disks)) == Some(disks),
{
    let b = spec_enc_index(disks);
    let fo = spec_enc_forest(disks);
    assert(b == spec_enc_u64(disks.len() as u64) + fo);
    assert(b.subrange(0, 8) =~= spec_enc_u64(disks.len() as u64));
    lemma_dec_u64_at_enc(b, 0, disks.len() as u64);
    assert(b.subrange(8, 8 + fo.len() as int) =~= fo);
    lemma_dec_forest_at_enc(b, 8, disks);
}

proof fn lemma_enc_chars_push(s: Seq<char>, c: char)
    ensures
        spec_enc_chars(s.push(c)) == spec_enc_chars(s) + spec_enc_u32(c as u32),
    decreases s.len(),
{
    if s.len() == 0 {
        assert(s.push(c).drop_first() =~= Seq::<char>::empty());
        assert(spec_enc_chars(Seq::<char>::empty()) =~= Seq::<u8>::empty());
        assert(s.push(c)[0] == c);
        assert(spec_enc_chars(s.push(c)) =~= spec_enc_chars(s) + spec_enc_u32(c as u32));
    } else {
        lemma_enc_chars_push(s.drop_first(), c);
        assert(s.push(c).drop_first() =~= s.drop_first().push(c));
        assert(s.push(c)[0] == s[0]);
        assert(spec_enc_chars(s.push(c)) =~= spec_enc_chars(s) + spec_enc_u32(c as u32));
    }
}

proof fn lemma_enc_forest_push(s: Seq<FileModel>, x: FileModel)
    ensures
        spec_enc_forest(s.push(x)) == spec_enc_forest(s) + spec_enc_node(x),
    decreases s,
{
    if s.len() == 0 {
        assert(s.push(x).drop_first() =~= Seq::<FileModel>::empty());
        assert(spec_enc_forest(Seq::<FileModel>::empty()) =~= Seq::<u8>::empty());
        assert(s.push(x)[0] == x);
        assert(spec_enc_forest(s.push(x)) =~= spec_enc_forest(s) + spec_enc_node(x));
    } else {
        lemma_enc_forest_push(s.drop_first(), x);
        assert(s.push(x).drop_first() =~= s.drop_first().push(x));
        assert(s.push(x)[0] == s[0]);
        assert(spec_enc_forest(s.push(x)) =~= spec_enc_forest(s) + spec_enc_node(x));
    }
}

fn enc_u64(out: &mut Vec<u8>, x: u64)
    ensures
        final(out)@ == old(out)@ + spec_enc_u64(x),
{
    out.push((x % 256) as u8);
    out.push(((x / 256) % 256) as u8);
    out.push(((x / 0x10000) % 256) as u8);
    out.push(((x / 0x1000000) % 256) as u8);
    out.push(((x / 0x100000000) % 256) as u8);
    out.push(((x / 0x10000000000) % 256) as u8);
    out.push(((x / 0x1000000000000) % 256) as u8);
    out.push(((x / 0x100000000000000) % 256) as u8);
    proof {
        assert(out@ =~= old(out)@ + spec_enc_u64(x));
    }
}

fn enc_char(out: &mut Vec<u8>, c: char)
    ensures
        final(out)@ == old(out)@ + spec_enc_u32(c as u32),
{
    let v = c as u32;
    out.push((v % 256) as u8);
    out.push(((v / 256) % 256) as u8);
    out.push(((v / 0x10000) % 256) as u8);
    out.push(((v / 0x1000000) % 256) as u8);
    proof {
        assert(out@ =~= old(out)@ + spec_enc_u32(c as u32));
    }
}

#[verifier::loop_isolation(false)]
fn enc_node(out: &mut Vec<u8>, f: &File)
    ensures
        final(out)@ == old(out)@ + spec_enc_node(f@),
        spec_enc_ok(f@),
    decreases *f,
{
    let n = f.name.as_str().unicode_len();
    enc_u64(out, n as u64);
    let ghost after_len = out@;
    proof {
        assert(f@.name.take(0) =~= Seq::<char>::empty());
        assert(spec_enc_chars(Seq::<char>::empty()) =~= Seq::<u8>::empty());
        assert(out@ =~= after_len + spec_enc_chars(f@.name.take(0)));
    }
    let mut i: usize = 0;
    while i < n
        invariant
            0 <= i <= n,
            out@ == after_len + spec_enc_chars(f@.name.take(i as int)),
        decreases n - i,
    {
        enc_char(out, f.name.as_str().get_char(i));
        proof {
            assert(f@.name.take(i + 1) =~= f@.name.take(i as int).push(f@.name[i as int]));
            lemma_enc_chars_push(f@.name.take(i as int), f@.name[i as int]);
        }
        i += 1;
    }
    proof {
        assert(f@.name.take(n as int) =~= f@.name);
    }
    enc_u64(out, f.children.len() as u64);
    let ghost after_cnt = out@;
    proof {
        lemma_files_model(f.children@);
        assert(f@.children.take(0) =~= Seq::<FileModel>::empty());
        assert(spec_enc_forest(Seq::<FileModel>::empty()) =~= Seq::<u8>::empty());
        assert(out@ =~= after_cnt + spec_enc_forest(f@.children.take(0)));
    }
    let mut j: usize = 0;
    while j < f.children.len()
        invariant
            0 <= j <= f.children@.len(),
            out@ == after_cnt + spec_enc_forest(f@.children.take(j as int)),
            forall|k: int| 0 <= k < j ==> spec_enc_ok(#[trigger] f@.children[k]),
        decreases f.children@.len() - j,
    {
        enc_node(out, &f.children[j]);
        proof {
            assert(f@.children.take(j + 1) =~= f@.children.take(j as int).push(
                f@.children[j as int],
            ));
            lemma_enc_forest_push(f@.children.take(j as int), f@.children[j as int]);
        }
        j += 1;
    }
    proof {
        assert(f@.children.take(f.children@.len() as int) =~= f@.children);
    }
}

fn dec_u64(b: &Vec<u8>, pos: usize) -> (r: Result<(u64, usize), ()>)
    ensures
        match r {
            Ok((x, p2)) => spec_dec_u64_at(b@, pos as int) == Some((x as int, p2 as int)) && pos
                < p2 <= b@.len(),
            Err(()) => spec_dec_u64_at(b@, pos as int) is None,
        },
{
    if b.len() < 8 || pos > b.len() - 8 {
        return Err(());
    }
    let x = b[pos] as u64 + (b[pos + 1] as u64) * 256 + (b[pos + 2] as u64) * 0x10000 + (b[pos
        + 3] as u64) * 0x1000000 + (b[pos + 4] as u64) * 0x100000000 + (b[pos + 5] as u64)
        * 0x10000000000 + (b[pos + 6] as u64) * 0x1000000000000 + (b[pos + 7] as u64)
        * 0x100000000000000;
    proof {
        let sub = b@.subrange(pos as int, pos as int + 8);
        assert forall|i: int| 0 <= i < 8 implies #[trigger] sub[i] == b@[pos as int + i] by {}
        assert(x as int == spec_dec_u64(sub));
    }
    Ok((x, pos + 8))
}

fn dec_char(b: &Vec<u8>, pos: usize) -> (r: Result<(char, usize), ()>)
    ensures
        match r {
            Ok((c, p2)) => spec_dec_char_at(b@, pos as int) == Some((c, p2 as int)) && pos < p2
                <= b@.len(),
            Err(()) => spec_dec_char_at(b@, pos as int) is None,
        },
{
    if b.len() < 4 || pos > b.len() - 4 {
        return Err(());
    }
    let v = b[pos] as u32 + (b[pos + 1] as u32) * 256 + (b[pos + 2] as u32) * 0x10000 + (b[pos
        + 3] as u32) * 0x1000000;
    proof {
        let sub = b@.subrange(pos as int, pos as int + 4);
        assert forall|i: int| 0 <= i < 4 implies #[trigger] sub[i] == b@[pos as int + i] by {}
        assert(v as int == spec_dec_u32(sub));
    }
    match char::from_u32(v) {
        Some(c) => {
            proof {
                vstd::utf8::char_u32_cast(c, v);
            }
            Ok((c, pos + 4))
        },
        None => Err(()),
    }
}

#[verifier::loop_isolation(false)]
fn dec_chars(b: &Vec<u8>, pos: usize, count: u64) -> (r: Result<(String, usize), ()>)
    ensures
        match r {
            Ok((s, p2)) => spec_dec_chars_at(b@, pos as int, count as int) == Some(
                (s@, p2 as int),
            ) && pos <= p2 && (count > 0 ==> pos < p2 <= b@.len()),
            Err(()) => spec_dec_chars_at(b@, pos as int, count as int) is None,
        },
{
    let mut acc = String::new();
    let mut cur = pos;
    let mut done: u64 = 0;
    proof {
        assert(acc@ =~= Seq::<char>::empty());
    }
    while done < count
        invariant
            pos <= cur,
            done <= count,
            done > 0 ==> pos < cur <= b@.len(),
            ({
                let full = spec_dec_chars_at(b@, pos as int, count as int);
                let rem = spec_dec_chars_at(b@, cur as int, count - done);
                match rem {
                    Some((rest, p)) => full == Some((acc@ + rest, p)),
                    None => full is None,
                }
            }),
        decreases count - done,
    {
        let ghost acc0 = acc@;
        match dec_char(b, cur) {
            Ok((c, p2)) => {
                push_char(&mut acc, c);
                proof {
                    let rem0 = spec_dec_chars_at(b@, cur as int, count - done);
                    let rem1 = spec_dec_chars_at(b@, p2 as int, count - done - 1);
                    match rem1 {
                        Some((rest1, p)) => {
                            assert(rem0 == Some((seq![c] + rest1, p)));
                            assert(acc0 + (seq![c] + rest1) =~= acc@ + rest1);
                        },
                        None => {},
                    }
                }
                cur = p2;
                done = done + 1;
            },
            Err(()) => {
                return Err(());
            },
        }
    }
    proof {
        assert(spec_dec_chars_at(b@, cur as int, 0) == Some((Seq::<char>::empty(), cur as int)));
        assert(acc@ + Seq::<char>::empty() =~= acc@);
    }
    Ok((acc, cur))
}

fn dec_node(b: &Vec<u8>, pos: usize) -> (r: Result<(File, usize), ()>)
    ensures
        match r {
            Ok((f, p2)) => spec_dec_node_at(b@, pos as int) == Some((file_model(f), p2 as int))
                && pos < p2 <= b@.len(),
            Err(()) => spec_dec_node_at(b@, pos as int) is None,
        },
    decreases b@.len() - pos, 0int, 0int,
{
    match dec_u64(b, pos) {
        Ok((nl, p1)) => match dec_chars(b, p1, nl) {
            Ok((name, p2)) => match dec_u64(b, p2) {
                Ok((cnt, p3)) => match dec_forest(b, p3, cnt) {
                    Ok((children, p4)) => {
                        proof {
                            assert(file_model(File { name, children }) == FileModel {
                                name: name@,
                                children: files_model(children@),
                            });
                        }
                        Ok((File { name, children }, p4))
                    },
                    Err(()) => Err(()),
                },
                Err(()) => Err(()),
            },
            Err(()) => Err(()),
        },
        Err(()) => Err(()),
    }
}

fn dec_forest(b: &Vec<u8>, pos: usize, count: u64) -> (r: Result<(Vec<File>, usize), ()>)
    ensures
        match r {
            Ok((v, p2)) => spec_dec_forest_at(b@, pos as int, count as int) == Some(
                (files_model(v@), p2 as int),
            ) && pos <= p2 && (count > 0 ==> pos < p2 <= b@.len()),
            Err(()) => spec_dec_forest_at(b@, pos as int, count as int) is None,
        },
    decreases b@.len() - pos, count as int, 1int,
{
    if count == 0 {
        proof {
            assert(files_model(Seq::<File>::empty()) =~= Seq::<FileModel>::empty());
        }
        return Ok((Vec::new(), pos));
    }
    match dec_node(b, pos) {
        Ok((n0, p1)) => match dec_forest(b, p1, count - 1) {
            Ok((rest, p2)) => {
                let ghost rest0 = rest@;
                let mut out = rest;
                out.insert(0, n0);
                proof {
                    lemma_files_model(out@);
                    lemma_files_model(rest0);
                    assert(out@ =~= seq![n0] + rest0);
                    assert forall|i: int| 0 <= i < out@.len() implies files_model(out@)[i] == (
                    seq![file_model(n0)] + files_model(rest0))[i] by {
                        if i > 0 {
                            assert(out@[i] == rest0[i - 1]);
                        }
                    }
                    assert(files_model(out@) =~= seq![file_model(n0)] + files_model(rest0));
                }
                Ok((out, p2))
            },
            Err(()) => Err(()),
        },
        Err(()) => Err(()),
    }
}

impl FileIndex {
    /// The snapshot as one self-contained byte blob.
    #[verifier::loop_isolation(false)]
    pub fn to_bytes(&self) -> (r: Vec<u8>)
        ensures
            r@ == spec_enc_index(self@),
            spec_enc_ok_forest(self@),
            self@.len() <= u64::MAX,
    {
        let mut out: Vec<u8> = Vec::new();
        enc_u64(&mut out, self.disks.len() as u64);
        let ghost after_cnt = out@;
        proof {
            lemma_files_model(self.disks@);
            assert(self@.take(0) =~= Seq::<FileModel>::empty());
            assert(spec_enc_forest(Seq::<FileModel>::empty()) =~= Seq::<u8>::empty());
            assert(out@ =~= after_cnt + spec_enc_forest(self@.take(0)));
        }
        let mut d: usize = 0;
        while d < self.disks.len()
            invariant
                0 <= d <= self.disks@.len(),
                out@ == after_cnt + spec_enc_forest(self@.take(d as int)),
                forall|k: int| 0 <= k < d ==> spec_enc_ok(#[trigger] self@[k]),
            decreases self.disks@.len() - d,
        {
            enc_node(&mut out, &self.disks[d]);
            proof {
                assert(self@.take(d + 1) =~= self@.take(d as int).push(self@[d as int]));
                lemma_enc_forest_push(self@.take(d as int), self@[d as int]);
            }
            d += 1;
        }
        proof {
            assert(self@.take(self.disks@.len() as int) =~= self@);
        }
        out
    }

    /// The snapshot a byte blob decodes to, or the read failure that
    /// makes the blob unusable: absent, truncated, malformed, or carrying
    /// trailing bytes.
    pub fn from_bytes(b: &Vec<u8>) -> (r: CaverResult<FileIndex>)
        ensures
            match r {
                Ok(fi) => spec_dec_index(b@) == Some(fi@),
                Err(e) => spec_dec_index(b@) is None && e is DeserializeError,
            },
    {
        match dec_u64(b, 0) {
            Ok((cnt, p1)) => match dec_forest(b, p1, cnt) {
                Ok((disks, p2)) => {
                    if p2 == b.len() {
                        Ok(FileIndex { disks })
                    } else {
                        Err(CaverError::DeserializeError)
                    }
                },
                Err(()) => Err(CaverError::DeserializeError),
            },
            Err(()) => Err(CaverError::DeserializeError),
        }
    }
}

} // verus!
