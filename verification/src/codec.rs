//! A length-framed byte codec: a record is a sequence of fields, each
//! written as an eight-byte big-endian length followed by its bytes.
//! Text fields hold UTF-8, numbers eight big-endian bytes, flags one byte.
use vstd::prelude::*;
use vstd::utf8::{decode_utf8, encode_utf8, valid_utf8};

verus! {

broadcast use vstd::utf8::encode_utf8_decode_utf8, vstd::utf8::encode_utf8_valid_utf8;

/// `256` to the power `w`.
pub open spec fn radix(w: nat) -> nat
    decreases w,
{
    if w == 0 {
        1
    } else {
        256 * radix((w - 1) as nat)
    }
}

/// The `w` low-order bytes of `n`, most significant first.
pub open spec fn be_bytes(n: nat, w: nat) -> Seq<u8>
    decreases w,
{
    if w == 0 {
        seq![]
    } else {
        be_bytes(n / 256, (w - 1) as nat).push((n % 256) as u8)
    }
}

/// The number that big-endian bytes `b` denote.
pub open spec fn be_value(b: Seq<u8>) -> nat
    decreases b.len(),
{
    if b.len() == 0 {
        0
    } else {
        be_value(b.drop_last()) * 256 + b.last() as nat
    }
}

pub proof fn lemma_be_len(n: nat, w: nat)
    ensures
        be_bytes(n, w).len() == w,
    decreases w,
{
    if w > 0 {
        lemma_be_len(n / 256, (w - 1) as nat);
    }
}

pub proof fn lemma_be_roundtrip(n: nat, w: nat)
    requires
        n < radix(w),
    ensures
        be_value(be_bytes(n, w)) == n,
    decreases w,
{
    if w > 0 {
        lemma_be_roundtrip(n / 256, (w - 1) as nat);
        assert(be_bytes(n, w).drop_last() =~= be_bytes(n / 256, (w - 1) as nat));
    }
}

pub proof fn lemma_be_value_bound(b: Seq<u8>)
    ensures
        be_value(b) < radix(b.len()),
    decreases b.len(),
{
    if b.len() > 0 {
        lemma_be_value_bound(b.drop_last());
        let p = radix((b.len() - 1) as nat);
        let v = be_value(b.drop_last());
        assert(v * 256 + b.last() < p * 256) by (nonlinear_arith)
            requires
                v < p,
                b.last() < 256,
        ;
    }
}

pub proof fn lemma_radix_values()
    ensures
        radix(4) == 4294967296,
        radix(7) == 72057594037927936,
        radix(8) == 18446744073709551616,
{
    reveal_with_fuel(radix, 9);
}

/// The width of a length prefix.
pub open spec fn len_width() -> nat {
    8
}

/// One field: its length, then its bytes.
pub open spec fn field(f: Seq<u8>) -> Seq<u8> {
    be_bytes(f.len(), len_width()) + f
}

/// The fields, one after another.
pub open spec fn frame(fs: Seq<Seq<u8>>) -> Seq<u8>
    decreases fs.len(),
{
    if fs.len() == 0 {
        seq![]
    } else {
        field(fs[0]) + frame(fs.drop_first())
    }
}

/// Every field is short enough for its length prefix.
pub open spec fn fields_fit(fs: Seq<Seq<u8>>) -> bool {
    forall|i: int| 0 <= i < fs.len() ==> #[trigger] fs[i].len() < radix(len_width())
}

/// Splits `b` into its fields, or `None` where `b` is not a frame.
pub open spec fn unframe(b: Seq<u8>) -> Option<Seq<Seq<u8>>>
    decreases b.len(),
{
    if b.len() == 0 {
        Some(seq![])
    } else if b.len() < len_width() {
        None
    } else {
        let n = be_value(b.take(len_width() as int));
        if b.len() < len_width() + n {
            None
        } else {
            match unframe(b.skip((len_width() + n) as int)) {
                Some(rest) => Some(seq![b.subrange(len_width() as int, (len_width() + n) as int)] + rest),
                None => None,
            }
        }
    }
}

pub proof fn lemma_frame_push(fs: Seq<Seq<u8>>, f: Seq<u8>)
    ensures
        frame(fs.push(f)) == frame(fs) + field(f),
    decreases fs.len(),
{
    if fs.len() == 0 {
        assert(fs.push(f).drop_first() =~= seq![]);
        assert(frame(seq![]) =~= seq![]);
        assert(fs.push(f)[0] == f);
        assert(frame(fs) =~= seq![]);
        assert(frame(fs.push(f)) =~= field(f));
    } else {
        assert(fs.push(f).drop_first() =~= fs.drop_first().push(f));
        lemma_frame_push(fs.drop_first(), f);
        assert(frame(fs.push(f)) =~= frame(fs) + field(f));
    }
}

/// What `unframe` does with one leading field.
pub proof fn lemma_unframe_step(f: Seq<u8>, rest: Seq<u8>)
    requires
        f.len() < radix(len_width()),
    ensures
        unframe(field(f) + rest) == match unframe(rest) {
            Some(fs) => Some(seq![f] + fs),
            None => None::<Seq<Seq<u8>>>,
        },
{
    let b = field(f) + rest;
    lemma_be_len(f.len(), len_width());
    lemma_be_roundtrip(f.len(), len_width());
    assert(b.take(len_width() as int) =~= be_bytes(f.len(), len_width()));
    assert(b.skip((len_width() + f.len()) as int) =~= rest);
    assert(b.subrange(len_width() as int, (len_width() + f.len()) as int) =~= f);
}

/// Reading a frame back gives the fields it was written from.
pub proof fn lemma_unframe_frame(fs: Seq<Seq<u8>>)
    requires
        fields_fit(fs),
    ensures
        unframe(frame(fs)) == Some(fs),
    decreases fs.len(),
{
    if fs.len() > 0 {
        let f = fs[0];
        let tail = fs.drop_first();
        assert forall|i: int| 0 <= i < tail.len() implies #[trigger] tail[i].len() < radix(len_width()) by {
            assert(tail[i] == fs[i + 1]);
        }
        lemma_unframe_frame(tail);
        assert(fs[0].len() < radix(len_width()));
        lemma_unframe_step(f, frame(tail));
        assert(frame(fs) == field(f) + frame(tail));
        assert(seq![f] + tail =~= fs);
    } else {
        assert(frame(fs) =~= seq![]);
    }
}

/// Each field of a frame is shorter than the frame.
pub proof fn lemma_frame_part(fs: Seq<Seq<u8>>, i: int)
    requires
        0 <= i < fs.len(),
    ensures
        fs[i].len() + len_width() <= frame(fs).len(),
    decreases fs.len(),
{
    lemma_be_len(fs[0].len(), len_width());
    if i > 0 {
        assert(fs.drop_first()[i - 1] == fs[i]);
        lemma_frame_part(fs.drop_first(), i - 1);
    }
}

/// A field short enough for its length prefix.
pub open spec fn fits(b: Seq<u8>) -> bool {
    b.len() < radix(len_width())
}

/// The fields of a frame that fits fit too.
pub proof fn lemma_fits_parts(fs: Seq<Seq<u8>>)
    requires
        fits(frame(fs)),
    ensures
        fields_fit(fs),
{
    assert forall|i: int| 0 <= i < fs.len() implies #[trigger] fs[i].len() < radix(len_width()) by {
        lemma_frame_part(fs, i);
    }
}

/// A frame is exactly the fields it splits into.
pub proof fn lemma_frame_unframe(b: Seq<u8>)
    requires
        unframe(b) is Some,
    ensures
        frame(unframe(b)->0) == b,
    decreases b.len(),
{
    if b.len() > 0 {
        let n = be_value(b.take(len_width() as int));
        let rest = b.skip((len_width() + n) as int);
        lemma_frame_unframe(rest);
        let f = b.subrange(len_width() as int, (len_width() + n) as int);
        let fs = seq![f] + unframe(rest)->0;
        assert(fs.drop_first() =~= unframe(rest)->0);
        assert(fs[0] == f);
        lemma_be_value_bound(b.take(len_width() as int));
        lemma_be_len(f.len(), len_width());
        assert(b.take(len_width() as int).len() == len_width());
        lemma_be_value_roundtrip(b.take(len_width() as int));
        assert(be_bytes(f.len(), len_width()) =~= b.take(len_width() as int));
        assert(field(f) + frame(fs.drop_first()) =~= b);
    } else {
        assert(frame(seq![]) =~= seq![]);
    }
}

/// Writing back the number that bytes denote gives those bytes.
pub proof fn lemma_be_value_roundtrip(b: Seq<u8>)
    ensures
        be_bytes(be_value(b), b.len()) == b,
    decreases b.len(),
{
    if b.len() > 0 {
        lemma_be_value_roundtrip(b.drop_last());
        let v = be_value(b.drop_last());
        assert((v * 256 + b.last()) / 256 == v);
        assert((v * 256 + b.last()) % 256 == b.last());
        assert(b.drop_last().push(b.last()) =~= b);
    } else {
        assert(b =~= seq![]);
    }
}

/// Frames of fields of the same lengths have the same length.
pub proof fn lemma_frame_len_eq(fs: Seq<Seq<u8>>, gs: Seq<Seq<u8>>)
    requires
        fs.len() == gs.len(),
        forall|i: int| 0 <= i < fs.len() ==> (#[trigger] fs[i]).len() == gs[i].len(),
    ensures
        frame(fs).len() == frame(gs).len(),
    decreases fs.len(),
{
    if fs.len() > 0 {
        assert forall|i: int| 0 <= i < fs.drop_first().len() implies (#[trigger] fs.drop_first()[i]).len() == gs.drop_first()[i].len() by {
            assert(fs.drop_first()[i] == fs[i + 1]);
            assert(gs.drop_first()[i] == gs[i + 1]);
        }
        lemma_frame_len_eq(fs.drop_first(), gs.drop_first());
        lemma_be_len(fs[0].len(), len_width());
        lemma_be_len(gs[0].len(), len_width());
    }
}

/// Appends the `w` low-order bytes of `n`, most significant first.
pub fn push_be(out: &mut Vec<u8>, n: u64, w: u8)
    requires
        w <= 8,
    ensures
        final(out)@ == old(out)@ + be_bytes(n as nat, w as nat),
    decreases w,
{
    if w > 0 {
        push_be(out, n / 256, w - 1);
        out.push((n % 256) as u8);
        proof {
            assert(be_bytes(n as nat, w as nat) == be_bytes((n / 256) as nat, (w - 1) as nat).push((n % 256) as u8));
        }
    }
}

/// The number held in `b[start..start + w]`, read big-endian.
pub fn read_be(b: &[u8], start: usize, w: usize) -> (r: u64)
    requires
        w <= 8,
        start + w <= b@.len(),
    ensures
        r as nat == be_value(b@.subrange(start as int, start + w)),
{
    let mut v: u64 = 0;
    let mut i: usize = 0;
    while i < w
        invariant
            i <= w <= 8,
            start + w <= b@.len(),
            start + w <= b.len(),
            v as nat == be_value(b@.subrange(start as int, start + i)),
        decreases w - i,
    {
        proof {
            lemma_be_value_bound(b@.subrange(start as int, start + i));
            assert(radix(i as nat) <= radix(7)) by {
                lemma_radix_mono(i as nat, 7);
            }
            lemma_radix_values();
            assert(b@.subrange(start as int, start + i + 1).drop_last() =~= b@.subrange(start as int, start + i));
            let vv = v as int;
            assert(vv * 256 + 255 < 18446744073709551616) by (nonlinear_arith)
                requires
                    vv < 72057594037927936,
            ;
        }
        let byte = b[start + i] as u64;
        let shifted = v * 256;
        v = shifted + byte;
        i = i + 1;
    }
    v
}

pub proof fn lemma_radix_mono(a: nat, b: nat)
    requires
        a <= b,
    ensures
        radix(a) <= radix(b),
    decreases b,
{
    if a < b {
        lemma_radix_mono(a, (b - 1) as nat);
    }
}

/// Appends one field holding `f`.
pub fn push_field(out: &mut Vec<u8>, f: &[u8])
    ensures
        final(out)@ == old(out)@ + field(f@),
{
    push_be(out, f.len() as u64, 8);
    let ghost mid = out@;
    let mut i: usize = 0;
    while i < f.len()
        invariant
            i <= f@.len(),
            out@ == mid + f@.take(i as int),
        decreases f.len() - i,
    {
        out.push(f[i]);
        proof {
            assert(f@.take(i + 1) =~= f@.take(i as int).push(f@[i as int]));
        }
        i = i + 1;
    }
    assert(f@.take(f@.len() as int) =~= f@);
}

/// Splits `b` into its fields, or `None` where `b` is not a frame.
pub fn split_frame(b: &[u8]) -> (r: Option<Vec<Vec<u8>>>)
    ensures
        match r {
            Some(fs) => unframe(b@) == Some(fs@.map_values(|f: Vec<u8>| f@)),
            None => unframe(b@) is None,
        },
{
    let mut fs: Vec<Vec<u8>> = Vec::new();
    let mut pos: usize = 0;
    proof {
        assert(b@.skip(0) =~= b@);
        assert(fs@.map_values(|f: Vec<u8>| f@) =~= seq![]);
        match unframe(b@) {
            Some(rest) => {
                assert(seq![] + rest =~= rest);
            },
            None => {},
        }
    }
    while pos < b.len()
        invariant
            pos <= b@.len(),
            unframe(b@) == match unframe(b@.skip(pos as int)) {
                Some(rest) => Some(fs@.map_values(|f: Vec<u8>| f@) + rest),
                None => None::<Seq<Seq<u8>>>,
            },
        decreases b@.len() - pos,
    {
        let ghost tail = b@.skip(pos as int);
        if b.len() - pos < 8 {
            return None;
        }
        let n = read_be(b, pos, 8);
        proof {
            assert(b@.subrange(pos as int, pos + 8) =~= tail.take(8));
        }
        if ((b.len() - pos - 8) as u64) < n {
            return None;
        }
        let n = n as usize;
        assert(pos + 8 + n <= b@.len());
        let mut f: Vec<u8> = Vec::new();
        let mut j: usize = 0;
        while j < n
            invariant
                j <= n,
                pos + 8 + n <= b@.len(),
                pos + 8 + n <= b.len(),
                f@ == b@.subrange(pos + 8, pos + 8 + j),
            decreases n - j,
        {
            f.push(b[pos + 8 + j]);
            proof {
                assert(b@.subrange(pos + 8, pos + 8 + j + 1) =~= b@.subrange(pos + 8, pos + 8 + j).push(b@[pos + 8 + j]));
            }
            j = j + 1;
        }
        proof {
            assert(f@ =~= tail.subrange(8, 8 + n));
            assert(tail.skip(8 + n) =~= b@.skip(pos + 8 + n));
            let ghost old_fs = fs@.map_values(|g: Vec<u8>| g@);
            assert((fs@.push(f)).map_values(|g: Vec<u8>| g@) =~= old_fs.push(f@));
            match unframe(b@.skip(pos + 8 + n)) {
                Some(rest) => {
                    assert(old_fs + (seq![f@] + rest) =~= old_fs.push(f@) + rest);
                },
                None => {},
            }
        }
        fs.push(f);
        pos = pos + 8 + n;
    }
    proof {
        assert(b@.skip(pos as int) =~= seq![]);
        assert(fs@.map_values(|f: Vec<u8>| f@) + seq![] =~= fs@.map_values(|f: Vec<u8>| f@));
    }
    Some(fs)
}

/// A number field: eight big-endian bytes.
pub open spec fn num_bytes(n: u64) -> Seq<u8> {
    be_bytes(n as nat, 8)
}

/// A flag field: one byte, 1 for true.
pub open spec fn flag_bytes(b: bool) -> Seq<u8> {
    if b {
        seq![1u8]
    } else {
        seq![0u8]
    }
}

/// A text field: the UTF-8 encoding of the characters.
pub open spec fn text_bytes(s: Seq<char>) -> Seq<u8> {
    encode_utf8(s)
}

/// The number a field holds, where it is eight bytes long.
pub open spec fn num_of(b: Seq<u8>) -> Option<u64> {
    if b.len() == 8 {
        Some(be_value(b) as u64)
    } else {
        None
    }
}

/// The flag a field holds, where it is one byte, 0 or 1.
pub open spec fn flag_of(b: Seq<u8>) -> Option<bool> {
    if b.len() == 1 && b[0] == 0 {
        Some(false)
    } else if b.len() == 1 && b[0] == 1 {
        Some(true)
    } else {
        None
    }
}

/// The text a field holds, where it is valid UTF-8.
pub open spec fn text_of(b: Seq<u8>) -> Option<Seq<char>> {
    if valid_utf8(b) {
        Some(decode_utf8(b))
    } else {
        None
    }
}

pub proof fn lemma_num_roundtrip(n: u64)
    ensures
        num_of(num_bytes(n)) == Some(n),
        num_bytes(n).len() == 8,
{
    lemma_be_len(n as nat, 8);
    lemma_radix_values();
    lemma_be_roundtrip(n as nat, 8);
}

pub proof fn lemma_flag_roundtrip(b: bool)
    ensures
        flag_of(flag_bytes(b)) == Some(b),
{
}

pub proof fn lemma_text_roundtrip(s: Seq<char>)
    ensures
        text_of(text_bytes(s)) == Some(s),
{
}

/// UTF-8 takes at most four bytes per character.
pub proof fn lemma_text_len(s: Seq<char>)
    ensures
        text_bytes(s).len() <= 4 * s.len(),
    decreases s.len(),
{
    if s.len() > 0 {
        lemma_text_len(s.drop_first());
    }
}

pub fn push_num(out: &mut Vec<u8>, n: u64)
    ensures
        final(out)@ == old(out)@ + field(num_bytes(n)),
{
    let mut b: Vec<u8> = Vec::new();
    push_be(&mut b, n, 8);
    proof {
        lemma_be_len(n as nat, 8);
        lemma_radix_values();
        assert(b@ =~= num_bytes(n));
    }
    push_field(out, b.as_slice());
}

pub fn push_flag(out: &mut Vec<u8>, v: bool)
    ensures
        final(out)@ == old(out)@ + field(flag_bytes(v)),
{
    let mut b: Vec<u8> = Vec::new();
    b.push(if v { 1u8 } else { 0u8 });
    proof {
        assert(b@ =~= flag_bytes(v));
        lemma_radix_values();
    }
    push_field(out, b.as_slice());
}

pub fn push_text(out: &mut Vec<u8>, s: &str)
    ensures
        final(out)@ == old(out)@ + field(text_bytes(s@)),
{
    let b = s.as_bytes();
    push_field(out, b);
}

pub fn num_field(b: &Vec<u8>) -> (r: Option<u64>)
    ensures
        r == num_of(b@),
{
    if b.len() == 8 {
        assert(b@.subrange(0, 8) =~= b@);
        Some(read_be(b.as_slice(), 0, 8))
    } else {
        None
    }
}

pub fn flag_field(b: &Vec<u8>) -> (r: Option<bool>)
    ensures
        r == flag_of(b@),
{
    if b.len() == 1 && b[0] == 0 {
        Some(false)
    } else if b.len() == 1 && b[0] == 1 {
        Some(true)
    } else {
        None
    }
}

/// `String::from_utf8` (std): the string is returned exactly when the bytes
/// are UTF-8, and its encoding is those bytes.
#[verifier::external_body]
fn utf8_string(b: &Vec<u8>) -> (r: Option<String>)
    ensures
        r matches Some(s) ==> encode_utf8(s@) == b@,
        valid_utf8(b@) ==> r is Some,
{
    String::from_utf8(b.clone()).ok()
}

pub fn text_field(b: &Vec<u8>) -> (r: Option<String>)
    ensures
        match r {
            Some(s) => text_of(b@) == Some(s@),
            None => text_of(b@) is None,
        },
{
    match utf8_string(b) {
        Some(s) => {
            proof {
                vstd::utf8::encode_utf8_valid_utf8(s@);
                vstd::utf8::encode_utf8_decode_utf8(s@);
            }
            Some(s)
        },
        None => None,
    }
}

} // verus!
