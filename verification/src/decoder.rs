//! Best-effort text decoding for one CSV field.
//!
//! The primary path decodes a byte run as strict UTF-8. Whenever the bytes
//! stop being valid UTF-8, the single offending byte is transliterated
//! through a fixed legacy-code-page table to a plain ASCII approximation (or
//! dropped and reported when the table has no entry for it), and strict
//! decoding resumes right after it. Decoding never fails.

use vstd::pervasive::unreached;
use vstd::prelude::*;
use vstd::slice::slice_subrange;
use vstd::string::{StringExecFns, StringSliceAdditionalSpecFns};
use vstd::utf8::{decode_first_scalar, decode_utf8, encode_utf8_decode_utf8,
    length_of_first_scalar, pop_first_scalar, valid_first_scalar, valid_utf8};

verus! {

/// The ASCII approximation of one legacy extended-ASCII byte, or nothing if
/// the fixed table has no entry for that byte.
pub open spec fn translit(b: u8) -> Option<char> {
    match b {
        128u8 => Some('C'),
        129u8 => Some('u'),
        130u8 => Some('e'),
        131u8 => Some('a'),
        132u8 => Some('a'),
        133u8 => Some('a'),
        134u8 => Some('a'),
        135u8 => Some('c'),
        136u8 => Some('e'),
        137u8 => Some('e'),
        138u8 => Some('e'),
        139u8 => Some('i'),
        140u8 => Some('i'),
        141u8 => Some('i'),
        142u8 => Some('A'),
        143u8 => Some('A'),
        144u8 => Some('E'),
        145u8 => Some('a'),
        146u8 => Some('\''),
        147u8 => Some('o'),
        148u8 => Some('o'),
        149u8 => Some('o'),
        150u8 => Some('u'),
        151u8 => Some('u'),
        152u8 => Some('y'),
        153u8 => Some('O'),
        154u8 => Some('U'),
        155u8 => Some('o'),
        201u8 => Some('E'),
        203u8 => Some('E'),
        208u8 => Some('D'),
        209u8 => Some('N'),
        210u8 => Some('E'),
        211u8 => Some('O'),
        212u8 => Some('E'),
        241u8 => Some('n'),
        _ => None,
    }
}

/// What one transliterated byte contributes to the decoded text: one ASCII
/// character, or nothing.
pub open spec fn translit_chars(b: u8) -> Seq<char> {
    match translit(b) {
        Some(c) => seq![c],
        None => Seq::<char>::empty(),
    }
}

/// What one transliterated byte contributes to the unmapped-byte report: the
/// byte itself exactly when the table has no entry for it.
pub open spec fn translit_unmapped(b: u8) -> Seq<u8> {
    match translit(b) {
        Some(c) => Seq::<u8>::empty(),
        None => seq![b],
    }
}

/// The text a byte run decodes to: each maximal well-formed UTF-8 scalar
/// in turn, and a transliterated byte wherever no well-formed scalar starts.
pub open spec fn decoded_chars(bytes: Seq<u8>) -> Seq<char>
    decreases bytes.len(),
{
    if bytes.len() == 0 {
        Seq::<char>::empty()
    } else if valid_first_scalar(bytes) {
        seq![decode_first_scalar(bytes) as char] + decoded_chars(pop_first_scalar(bytes))
    } else {
        translit_chars(bytes[0]) + decoded_chars(bytes.skip(1))
    }
}

/// The bytes a byte run drops while decoding: those that neither take part in
/// a well-formed UTF-8 scalar nor have a transliteration, in order.
pub open spec fn unmapped_bytes(bytes: Seq<u8>) -> Seq<u8>
    decreases bytes.len(),
{
    if bytes.len() == 0 {
        Seq::<u8>::empty()
    } else if valid_first_scalar(bytes) {
        unmapped_bytes(pop_first_scalar(bytes))
    } else {
        translit_unmapped(bytes[0]) + unmapped_bytes(bytes.skip(1))
    }
}

/// Relies on `core::str::from_utf8`: it returns `Ok` with a text over exactly
/// the given bytes when the whole slice is valid UTF-8; on `Err`,
/// `Utf8Error::valid_up_to` is the length of the longest prefix that was
/// verified as UTF-8, after which no whole well-formed scalar follows.
#[verifier::external_body]
fn utf8_chunk(bytes: &[u8]) -> (r: Result<&str, usize>)
    ensures
        r matches Ok(s) ==> valid_utf8(bytes@) && s.spec_bytes() == bytes@,
        r matches Err(v) ==> {
            &&& !valid_utf8(bytes@)
            &&& (v as int) < bytes@.len()
            &&& valid_utf8(bytes@.take(v as int))
            &&& !valid_first_scalar(bytes@.skip(v as int))
        },
{
    core::str::from_utf8(bytes).map_err(|e| e.valid_up_to())
}

/// On fully valid UTF-8 the decoder is plain UTF-8 decoding and drops nothing.
proof fn lemma_decoded_valid(bytes: Seq<u8>)
    requires
        valid_utf8(bytes),
    ensures
        decoded_chars(bytes) == decode_utf8(bytes),
        unmapped_bytes(bytes) == Seq::<u8>::empty(),
    decreases bytes.len(),
{
    if bytes.len() == 0 {
        assert(decoded_chars(bytes) =~= decode_utf8(bytes));
    } else {
        lemma_decoded_valid(pop_first_scalar(bytes));
    }
}

/// Whether a byte sequence begins with a well-formed scalar, what that scalar
/// is and how many bytes it takes are all decided by its first four bytes, so
/// they carry over to any extension of the sequence.
proof fn lemma_first_scalar_extend(p: Seq<u8>, q: Seq<u8>)
    requires
        valid_first_scalar(p),
    ensures
        valid_first_scalar(p + q),
        length_of_first_scalar(p + q) == length_of_first_scalar(p),
        decode_first_scalar(p + q) == decode_first_scalar(p),
        pop_first_scalar(p + q) =~= pop_first_scalar(p) + q,
{
    let l = length_of_first_scalar(p);
    assert(1 <= l <= p.len());
    assert((p + q)[0] == p[0]);
    assert(forall|i: int| 0 <= i < p.len() ==> (p + q)[i] == p[i]);
}

/// One round of the decoder: a longest valid prefix decodes as UTF-8, the
/// byte after it transliterates, and the rest decodes on its own.
proof fn lemma_decode_step(b: Seq<u8>, v: int)
    requires
        0 <= v < b.len(),
        valid_utf8(b.take(v)),
        !valid_first_scalar(b.skip(v)),
    ensures
        decoded_chars(b) == decode_utf8(b.take(v)) + translit_chars(b[v]) + decoded_chars(
            b.skip(v + 1),
        ),
        unmapped_bytes(b) == translit_unmapped(b[v]) + unmapped_bytes(b.skip(v + 1)),
    decreases v,
{
    let p = b.take(v);
    let q = b.skip(v);
    if v == 0 {
        assert(q =~= b);
        assert(b.len() != 0 && !valid_first_scalar(b));
        assert(decode_utf8(p) =~= Seq::<char>::empty());
        assert(b.skip(1) =~= b.skip(v + 1));
        assert(decoded_chars(b) =~= decode_utf8(p) + translit_chars(b[v]) + decoded_chars(
            b.skip(v + 1),
        ));
    } else {
        assert(p.len() != 0);
        assert(valid_first_scalar(p));
        let l = length_of_first_scalar(p);
        assert(1 <= l <= p.len());
        assert(p + q =~= b);
        lemma_first_scalar_extend(p, q);
        assert(valid_first_scalar(b));
        assert(length_of_first_scalar(b) == l);
        let b2 = pop_first_scalar(b);
        assert(b2 =~= b.skip(l));
        // the tail after the first scalar still splits at v - l
        assert(b2.take(v - l) =~= pop_first_scalar(p));
        assert(b2.skip(v - l) =~= q);
        assert(valid_utf8(b2.take(v - l)));
        lemma_decode_step(b2, v - l);
        assert(b2[v - l] == b[v]);
        assert(b2.skip(v - l + 1) =~= b.skip(v + 1));
        // assemble the three pieces
        assert(decoded_chars(b) == seq![decode_first_scalar(b) as char] + decoded_chars(b2));
        assert(decode_utf8(p) == seq![decode_first_scalar(p) as char] + decode_utf8(
            pop_first_scalar(p),
        ));
        assert(decode_first_scalar(b) == decode_first_scalar(p));
        assert(seq![decode_first_scalar(p) as char] + (decode_utf8(pop_first_scalar(p))
            + translit_chars(b[v]) + decoded_chars(b.skip(v + 1))) =~= decode_utf8(p)
            + translit_chars(b[v]) + decoded_chars(b.skip(v + 1)));
        assert(unmapped_bytes(b) == unmapped_bytes(b2));
    }
}

/// Decodes one field: UTF-8 where the bytes allow it, the fixed ASCII
/// transliteration where they do not. Returns the decoded text together with
/// the bytes that were dropped for want of a table entry, in input order,
/// as the caller's diagnostic hook. Never fails.
pub fn decode_field(bytes: &[u8]) -> (r: (String, Vec<u8>))
    ensures
        r.0@ == decoded_chars(bytes@),
        r.1@ == unmapped_bytes(bytes@),
{
    let n = bytes.len();
    let mut out = String::new();
    let mut unmapped: Vec<u8> = Vec::new();
    let mut i: usize = 0;
    proof {
        assert(bytes@.skip(0) =~= bytes@);
        assert(out@ + decoded_chars(bytes@) =~= decoded_chars(bytes@));
        assert(unmapped@ + unmapped_bytes(bytes@) =~= unmapped_bytes(bytes@));
    }
    while i < n
        invariant
            n == bytes@.len(),
            i <= n,
            out@ + decoded_chars(bytes@.skip(i as int)) == decoded_chars(bytes@),
            unmapped@ + unmapped_bytes(bytes@.skip(i as int)) == unmapped_bytes(bytes@),
        decreases n - i,
    {
        let rest = slice_subrange(bytes, i, n);
        proof {
            assert(rest@ =~= bytes@.skip(i as int));
        }
        match utf8_chunk(rest) {
            Ok(s) => {
                out.append(s);
                proof {
                    encode_utf8_decode_utf8(s@);
                    assert(s@ == decode_utf8(rest@));
                    lemma_decoded_valid(rest@);
                    assert(bytes@.skip(n as int) =~= Seq::<u8>::empty());
                    assert(out@ + decoded_chars(bytes@.skip(n as int)) =~= out@);
                    assert(unmapped@ + unmapped_bytes(bytes@.skip(n as int)) =~= unmapped@);
                }
                i = n;
            },
            Err(v) => {
                proof {
                    lemma_decode_step(rest@, v as int);
                }
                let prefix = slice_subrange(bytes, i, i + v);
                proof {
                    assert(prefix@ =~= rest@.take(v as int));
                }
                match utf8_chunk(prefix) {
                    Ok(s) => {
                        proof {
                            encode_utf8_decode_utf8(s@);
                            assert(s@ == decode_utf8(prefix@));
                        }
                        out.append(s);
                    },
                    Err(_) => unreached(),
                }
                let b = bytes[i + v];
                proof {
                    assert(b == rest@[v as int]);
                }
                match translit_byte(b) {
                    Some(t) => {
                        out.append(t);
                    },
                    None => {
                        unmapped.push(b);
                    },
                }
                proof {
                    assert(rest@.skip(v as int + 1) =~= bytes@.skip(i + v + 1));
                    assert(out@ + decoded_chars(bytes@.skip(i + v + 1)) =~= decoded_chars(bytes@));
                    assert(unmapped@ + unmapped_bytes(bytes@.skip(i + v + 1)) =~= unmapped_bytes(
                        bytes@,
                    ));
                }
                i = i + v + 1;
            },
        }
    }
    proof {
        assert(bytes@.skip(i as int) =~= Seq::<u8>::empty());
        assert(out@ =~= decoded_chars(bytes@));
        assert(unmapped@ =~= unmapped_bytes(bytes@));
    }
    (out, unmapped)
}

/// The fixed transliteration table as executable text: the one-character
/// ASCII approximation of a legacy byte, or nothing.
fn translit_byte(b: u8) -> (r: Option<&'static str>)
    ensures
        match r {
            Some(s) => translit(b) matches Some(c) && s@ == seq![c],
            None => translit(b) is None,
        },
{
    proof {
        reveal_strlit("C");
        reveal_strlit("u");
        reveal_strlit("e");
        reveal_strlit("a");
        reveal_strlit("c");
        reveal_strlit("i");
        reveal_strlit("A");
        reveal_strlit("E");
        reveal_strlit("'");
        reveal_strlit("o");
        reveal_strlit("y");
        reveal_strlit("O");
        reveal_strlit("U");
        reveal_strlit("D");
        reveal_strlit("N");
        reveal_strlit("n");
    }
    match b {
        128 => Some("C"),
        129 => Some("u"),
        130 => Some("e"),
        131 => Some("a"),
        132 => Some("a"),
        133 => Some("a"),
        134 => Some("a"),
        135 => Some("c"),
        136 => Some("e"),
        137 => Some("e"),
        138 => Some("e"),
        139 => Some("i"),
        140 => Some("i"),
        141 => Some("i"),
        142 => Some("A"),
        143 => Some("A"),
        144 => Some("E"),
        145 => Some("a"),
        146 => Some("'"),
        147 => Some("o"),
        148 => Some("o"),
        149 => Some("o"),
        150 => Some("u"),
        151 => Some("u"),
        152 => Some("y"),
        153 => Some("O"),
        154 => Some("U"),
        155 => Some("o"),
        201 => Some("E"),
        203 => Some("E"),
        208 => Some("D"),
        209 => Some("N"),
        210 => Some("E"),
        211 => Some("O"),
        212 => Some("E"),
        241 => Some("n"),
        _ => None,
    }
}

} // verus!
