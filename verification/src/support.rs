//! Small helpers that drive the organ: symbols from text, opaque target
//! names, text digests, an effect gate that lets every effect through, a
//! fixed clock, and the bounding of captured process output.
use vstd::prelude::*;
use crate::digest::{hex_digest, sha256_hex};
use crate::organ::{Clock, EffectGate, EffectRequest, Error};
use crate::records::{error_message, is_symbol_text, symbol_char, dot_pair, Symbol};
use crate::text::{hex_digit, hex_text, string_of};
use vstd::utf8::{decode_utf8, encode_utf8, valid_utf8};

verus! {

/// The symbol with text `value`, or what the refusal says.
pub fn sym(value: &str) -> (r: Result<Symbol, String>)
    ensures
        r is Ok <==> is_symbol_text(value@),
        r matches Ok(s) ==> s@ == value@,
        r matches Err(m) ==> m@ == "invalid symbol"@,
{
    match Symbol::new(value) {
        Ok(s) => Ok(s),
        Err(e) => Err(e.message()),
    }
}

/// The lowercase hexadecimal SHA-256 digest of the UTF-8 bytes of `value`.
pub fn hash_text(value: &str) -> (r: String)
    ensures
        r@ == sha256_hex(encode_utf8(value@)),
        r@.len() == 64,
{
    let cs = hex_digest(value.as_bytes());
    string_of(&cs)
}

/// `host/` and the first 32 digits of the digest of `value`.
pub open spec fn opaque_text(value: Seq<char>) -> Seq<char> {
    "host/"@ + sha256_hex(encode_utf8(value)).take(32)
}

proof fn lemma_hex_symbol(n: int)
    requires
        0 <= n < 16,
    ensures
        symbol_char(hex_digit(n)),
        hex_digit(n) != '.',
        hex_digit(n) != '-',
        hex_digit(n) != '/',
{
}

proof fn lemma_opaque_symbol(value: Seq<char>)
    requires
        sha256_hex(encode_utf8(value)).len() == 64,
    ensures
        is_symbol_text(opaque_text(value)),
{
    reveal_strlit("host/");
    let d = sha256_hex(encode_utf8(value));
    let t = opaque_text(value);
    assert(t.len() == 37);
    assert forall|i: int| 5 <= i < 37 implies symbol_char(#[trigger] t[i]) && t[i] != '.' && t[i] != '-' by {
        let j = i - 5;
        let b = crate::digest::sha256(encode_utf8(value));
        assert(b.len() == 32);
        assert(t[i] == d[j]);
        assert(d[j] == hex_text(b)[j]);
        if j % 2 == 0 {
            lemma_hex_symbol((crate::digest::sha256(encode_utf8(value))[j / 2] / 16) as int);
        } else {
            lemma_hex_symbol((crate::digest::sha256(encode_utf8(value))[j / 2] % 16) as int);
        }
    }
    assert forall|i: int| 0 <= i < t.len() implies symbol_char(#[trigger] t[i]) by {
        if i < 5 {
            assert(t[i] == "host/"@[i]);
        }
    }
    assert forall|i: int| 0 <= i < t.len() - 1 implies !#[trigger] dot_pair(t, i) by {
        if i < 5 {
            assert(t[i] == "host/"@[i]);
        }
    }
}

/// The opaque name of the target `value`: `host/` and the first 32 digits
/// of the digest of `value`.
pub fn opaque_target(value: &str) -> (r: Result<Symbol, String>)
    ensures
        r matches Ok(s) && s@ == opaque_text(value@),
{
    let h = hash_text(value);
    let cs = crate::text::chars_of(h.as_str());
    let mut out: Vec<char> = vec!['h', 'o', 's', 't', '/'];
    let mut i: usize = 0;
    while i < 32
        invariant
            i <= 32,
            cs@ == h@,
            cs@.len() == 64,
            out@ == seq!['h', 'o', 's', 't', '/'] + cs@.take(i as int),
        decreases 32 - i,
    {
        out.push(cs[i]);
        proof {
            assert(cs@.take(i + 1) =~= cs@.take(i as int).push(cs@[i as int]));
        }
        i = i + 1;
    }
    proof {
        reveal_strlit("host/");
        assert(out@ =~= opaque_text(value@));
        lemma_opaque_symbol(value@);
    }
    let s = string_of(&out);
    sym(s.as_str())
}

/// An effect gate that lets every effect through.
pub struct Gate;

impl EffectGate for Gate {
    fn allow(&mut self, request: &EffectRequest) -> (r: Result<(), Error>)
        ensures
            r == Ok::<(), Error>(()),
    {
        Ok(())
    }
}

impl Default for Gate {
    fn default() -> (g: Self) {
        Gate
    }
}

/// A clock stopped at a tick.
pub struct Time(pub u64);

impl Clock for Time {
    fn now(&self) -> (t: u64)
        ensures
            t == self.0,
    {
        self.0
    }
}

/// What `String::from_utf8_lossy` makes of `b`.
pub uninterp spec fn utf8_lossy(b: Seq<u8>) -> Seq<char>;

/// `String::from_utf8_lossy` (std), made owned: the text of `b` with each
/// invalid sequence replaced by U+FFFD. Valid UTF-8 reads as the text it
/// encodes; what the replacement makes of other input is left to the name.
#[verifier::external_body]
fn lossy_text(b: &[u8]) -> (r: String)
    ensures
        r@ == utf8_lossy(b@),
        valid_utf8(b@) ==> r@ == decode_utf8(b@),
{
    String::from_utf8_lossy(b).into_owned()
}

/// How many bytes of each captured stream a process keeps under an output
/// cap of `cap` bytes: stdout first, stderr in what is left.
pub open spec fn kept(stdout_len: nat, stderr_len: nat, cap: nat) -> (nat, nat) {
    let o = if stdout_len < cap { stdout_len } else { cap };
    let rest = (cap - o) as nat;
    (o, if stderr_len < rest { stderr_len } else { rest })
}

fn prefix(b: &[u8], n: usize) -> (r: Vec<u8>)
    requires
        n <= b@.len(),
    ensures
        r@ == b@.take(n as int),
{
    let mut out: Vec<u8> = Vec::new();
    let mut i: usize = 0;
    while i < n
        invariant
            i <= n,
            n <= b@.len(),
            out@ == b@.take(i as int),
        decreases n - i,
    {
        out.push(b[i]);
        proof {
            assert(b@.take(i + 1) =~= b@.take(i as int).push(b@[i as int]));
        }
        i = i + 1;
    }
    out
}

/// The captured output a process keeps under an output cap of `cap`
/// bytes, read as text, and whether either stream was cut.
pub fn bounded_output(stdout: &[u8], stderr: &[u8], cap: usize) -> (r: (String, String, bool))
    ensures
        r.0@ == utf8_lossy(stdout@.take(kept(stdout@.len(), stderr@.len(), cap as nat).0 as int)),
        r.1@ == utf8_lossy(stderr@.take(kept(stdout@.len(), stderr@.len(), cap as nat).1 as int)),
        r.2 == (kept(stdout@.len(), stderr@.len(), cap as nat).0 < stdout@.len() || kept(
            stdout@.len(),
            stderr@.len(),
            cap as nat,
        ).1 < stderr@.len()),
        valid_utf8(stdout@.take(kept(stdout@.len(), stderr@.len(), cap as nat).0 as int)) ==> r.0@ == decode_utf8(
            stdout@.take(kept(stdout@.len(), stderr@.len(), cap as nat).0 as int),
        ),
        valid_utf8(stderr@.take(kept(stdout@.len(), stderr@.len(), cap as nat).1 as int)) ==> r.1@ == decode_utf8(
            stderr@.take(kept(stdout@.len(), stderr@.len(), cap as nat).1 as int),
        ),
{
    let out_keep = if stdout.len() < cap { stdout.len() } else { cap };
    let rest = cap - out_keep;
    let err_keep = if stderr.len() < rest { stderr.len() } else { rest };
    let out = prefix(stdout, out_keep);
    let err = prefix(stderr, err_keep);
    (lossy_text(out.as_slice()), lossy_text(err.as_slice()), out_keep < stdout.len() || err_keep < stderr.len())
}

} // verus!
