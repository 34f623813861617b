//! The metadata text carried by each remote message of a chain.
//!
//! The wire format is the file's name alone for the tail bundle, and the
//! name, a separating newline, and the successor's identifier in decimal for
//! every other bundle. The name is taken to be everything before the *last*
//! separator, so a decode splits at that separator and parses what follows.

use vstd::prelude::*;
use crate::decimal::{
    dec_digits, dec_parse, dec_render, lemma_dec_digits_are_digits, lemma_dec_digits_value,
    parse_dec,
};
use vstd::slice::{slice_subrange, slice_to_vec};

verus! {

/// The byte separating the filename from the successor identifier.
pub const LINK_SEP: u8 = 10;

/// Why a metadata text cannot be decoded.
#[derive(Clone, Copy, Debug, PartialEq, Eq, Structural)]
pub enum MetaError {
    /// The text has a separator, but what follows it is not the decimal form
    /// of a 64-bit identifier.
    BadNextId,
}

/// The metadata text recorded for a bundle: the filename alone when the
/// bundle has no successor, otherwise the filename, a separator, and the
/// successor's identifier in decimal.
pub open spec fn encode_meta_spec(filename: Seq<u8>, next: Option<u64>) -> Seq<u8> {
    match next {
        None => filename,
        Some(id) => filename + seq![LINK_SEP] + dec_digits(id as nat),
    }
}

/// The index of the last separator in `t`, or -1 when `t` has none.
pub open spec fn last_sep_index(t: Seq<u8>) -> int
    decreases t.len(),
{
    if t.len() == 0 {
        -1
    } else if t.last() == LINK_SEP {
        t.len() - 1
    } else {
        last_sep_index(t.drop_last())
    }
}

/// What decoding a metadata text yields: the filename and the absent or
/// present successor identifier, or nothing when the part after the last
/// separator does not parse as an identifier.
pub open spec fn decode_meta_spec(t: Seq<u8>) -> Option<(Seq<u8>, Option<u64>)> {
    let i = last_sep_index(t);
    if i < 0 {
        Some((t, None))
    } else {
        match parse_dec(t.skip(i + 1)) {
            Some(v) => Some((t.take(i), Some(v))),
            None => None,
        }
    }
}

/// A text without separators has no last separator.
proof fn lemma_last_sep_no_sep(t: Seq<u8>)
    requires
        forall|j: int| 0 <= j < t.len() ==> t[j] != LINK_SEP,
    ensures
        last_sep_index(t) == -1,
    decreases t.len(),
{
    if t.len() > 0 {
        lemma_last_sep_no_sep(t.drop_last());
    }
}

/// A separator with none after it is the last separator.
proof fn lemma_last_sep_at(t: Seq<u8>, i: int)
    requires
        0 <= i < t.len(),
        t[i] == LINK_SEP,
        forall|j: int| i < j < t.len() ==> t[j] != LINK_SEP,
    ensures
        last_sep_index(t) == i,
    decreases t.len(),
{
    if i == t.len() - 1 {
    } else {
        lemma_last_sep_at(t.drop_last(), i);
    }
}

/// Decoding inverts encoding, for any filename free of separators and any
/// successor: the name and the next-reference both come back exactly.
pub proof fn lemma_meta_round_trip(filename: Seq<u8>, next: Option<u64>)
    requires
        !filename.contains(LINK_SEP),
    ensures
        decode_meta_spec(encode_meta_spec(filename, next)) == Some((filename, next)),
{
    assert forall|j: int| 0 <= j < filename.len() implies filename[j] != LINK_SEP by {
        if filename[j] == LINK_SEP {
            assert(filename.contains(LINK_SEP));
        }
    }
    match next {
        None => {
            lemma_last_sep_no_sep(filename);
        },
        Some(id) => {
            let t = encode_meta_spec(filename, next);
            lemma_dec_digits_are_digits(id as nat);
            lemma_dec_digits_value(id as nat);
            assert(t[filename.len() as int] == LINK_SEP);
            assert forall|j: int| filename.len() < j < t.len() implies t[j] != LINK_SEP by {
                assert(t[j] == dec_digits(id as nat)[j - filename.len() - 1]);
            }
            lemma_last_sep_at(t, filename.len() as int);
            assert(t.take(filename.len() as int) =~= filename);
            assert(t.skip(filename.len() as int + 1) =~= dec_digits(id as nat));
        },
    }
}

/// Builds the metadata text for a bundle holding `filename` and the given
/// successor reference.
pub fn encode_metadata(filename: &Vec<u8>, next: Option<u64>) -> (r: Vec<u8>)
    ensures
        r@ == encode_meta_spec(filename@, next),
{
    let mut r = slice_to_vec(filename.as_slice());
    match next {
        None => {},
        Some(id) => {
            r.push(LINK_SEP);
            let mut d = dec_render(id);
            r.append(&mut d);
            proof {
                assert(r@ =~= encode_meta_spec(filename@, next));
            }
        },
    }
    r
}

/// The index of the last separator of `text`, if it has one.
fn find_last_sep(text: &Vec<u8>) -> (r: Option<usize>)
    ensures
        match r {
            None => last_sep_index(text@) == -1,
            Some(i) => 0 <= i < text@.len() && last_sep_index(text@) == i as int,
        },
{
    let mut i: usize = text.len();
    while i > 0
        invariant
            i <= text@.len(),
            forall|j: int| i <= j < text@.len() ==> text@[j] != LINK_SEP,
        decreases i,
    {
        i -= 1;
        if text[i] == LINK_SEP {
            proof {
                lemma_last_sep_at(text@, i as int);
            }
            return Some(i);
        }
    }
    proof {
        lemma_last_sep_no_sep(text@);
    }
    None
}

/// Splits a metadata text into the filename and the successor reference.
/// Fails exactly when the text has a separator whose suffix is not the
/// decimal form of a 64-bit identifier.
pub fn decode_metadata(text: &Vec<u8>) -> (r: Result<(Vec<u8>, Option<u64>), MetaError>)
    ensures
        match r {
            Ok(p) => decode_meta_spec(text@) == Some((p.0@, p.1)),
            Err(e) => decode_meta_spec(text@) is None && e == MetaError::BadNextId,
        },
{
    match find_last_sep(text) {
        None => Ok((slice_to_vec(text.as_slice()), None)),
        Some(i) => {
            assert(i < text.len());
            let suffix = slice_to_vec(slice_subrange(text.as_slice(), i + 1, text.len()));
            proof {
                assert(suffix@ =~= text@.skip(i + 1));
            }
            match dec_parse(&suffix) {
                Some(v) => {
                    let name = slice_to_vec(slice_subrange(text.as_slice(), 0, i));
                    proof {
                        assert(name@ =~= text@.take(i as int));
                    }
                    Ok((name, Some(v)))
                },
                None => Err(MetaError::BadNextId),
            }
        },
    }
}

} // verus!
