//! A word of a field.

use std::cmp::Ordering;
use vstd::prelude::*;
use vstd::slice::slice_to_vec;
use vstd::std_specs::cmp::PartialOrdSpecImpl;
use vstd::string::*;
use vstd::utf8::{decode_utf8, encode_utf8, valid_utf8};

use crate::util::string_util::{bytes_less, hex_list, hex_text, lemma_lex_total, lex_less};

verus! {

/// std's `String::from_utf8` turns bytes that are valid UTF-8 into the
/// string that they encode, and refuses all other bytes.
#[verifier::external_body]
fn string_from_utf8(bytes: Vec<u8>) -> (text: Option<String>)
    ensures
        text is Some <==> valid_utf8(bytes@),
        text matches Some(s) ==> s@ == decode_utf8(bytes@),
{
    String::from_utf8(bytes).ok()
}

/// The text form of the bytes of a term: what they spell when read as
/// UTF-8, and the list of them in hexadecimal when they are not UTF-8.
pub open spec fn text_of(bytes: Seq<u8>) -> Seq<char> {
    if valid_utf8(bytes) {
        decode_utf8(bytes)
    } else {
        hex_text(bytes)
    }
}

/// A word from a text, together with the name of the field in which it
/// occurred: the unit of search. Terms may stand for more than words of a
/// text, such as dates, addresses or numbers.
///
/// Terms are ordered by field, and within a field by their bytes.
#[derive(Debug, PartialEq, Eq, Ord, Hash, Clone)]
pub struct Term {
    /// The part of a document from which the term came.
    pub field: String,
    pub(crate) bytes: Vec<u8>,
}

impl View for Term {
    type V = (Seq<char>, Seq<u8>);

    /// The name of the field and the bytes of the word.
    closed spec fn view(&self) -> (Seq<char>, Seq<u8>) {
        (self.field@, self.bytes@)
    }
}

/// Whether the term with view `a` comes before the one with view `b`: its
/// field does, by the bytes of its name, or the fields are the same and its
/// bytes do.
pub open spec fn term_less(a: (Seq<char>, Seq<u8>), b: (Seq<char>, Seq<u8>)) -> bool {
    lex_less(encode_utf8(a.0), encode_utf8(b.0)) || (!lex_less(encode_utf8(b.0), encode_utf8(a.0))
        && lex_less(a.1, b.1))
}

impl PartialOrd for Term {
    /// Terms are ordered by field, and within a field by their bytes.
    fn partial_cmp(&self, other: &Term) -> (order: Option<Ordering>) {
        let mine = self.field.as_str().as_bytes();
        let theirs = other.field.as_str().as_bytes();
        if bytes_less(mine, theirs) {
            Some(Ordering::Less)
        } else if bytes_less(theirs, mine) {
            proof {
                lemma_lex_total(mine@, theirs@);
            }
            Some(Ordering::Greater)
        } else if bytes_less(self.bytes.as_slice(), other.bytes.as_slice()) {
            Some(Ordering::Less)
        } else if bytes_less(other.bytes.as_slice(), self.bytes.as_slice()) {
            proof {
                lemma_lex_total(self.bytes@, other.bytes@);
            }
            Some(Ordering::Greater)
        } else {
            Some(Ordering::Equal)
        }
    }
}

impl PartialOrdSpecImpl for Term {
    open spec fn obeys_partial_cmp_spec() -> bool {
        true
    }

    open spec fn partial_cmp_spec(&self, other: &Term) -> Option<Ordering> {
        if term_less(self@, other@) {
            Some(Ordering::Less)
        } else if term_less(other@, self@) {
            Some(Ordering::Greater)
        } else {
            Some(Ordering::Equal)
        }
    }
}

impl Term {
    /// The term of `field` with the given bytes.
    pub fn new(field: String, bytes: Vec<u8>) -> (term: Term)
        ensures
            term@ == (field@, bytes@),
    {
        Term { field, bytes }
    }

    /// The term of `field` whose bytes are the UTF-8 encoding of `text`.
    pub fn from_str(field: String, text: &str) -> (term: Term)
        ensures
            term@ == (field@, text.spec_bytes()),
    {
        Term { field, bytes: slice_to_vec(text.as_bytes()) }
    }

    /// The name of the field.
    pub fn field(&self) -> (name: &str)
        ensures
            name@ == self@.0,
    {
        self.field.as_str()
    }

    /// The bytes of the word.
    pub fn bytes(&self) -> (bytes: &[u8])
        ensures
            bytes@ == self@.1,
    {
        self.bytes.as_slice()
    }

    /// The word as text: the bytes read as UTF-8, or, where they are not
    /// UTF-8, listed in hexadecimal.
    pub fn text(&self) -> (text: String)
        ensures
            text@ == text_of(self@.1),
    {
        match string_from_utf8(slice_to_vec(self.bytes.as_slice())) {
            Some(text) => text,
            None => hex_list(self.bytes.as_slice()),
        }
    }

    /// The field, a colon, and the word as text.
    pub fn to_string(&self) -> (text: String)
        ensures
            text@ == self@.0 + seq![':'] + text_of(self@.1),
    {
        proof {
            reveal_strlit(":");
        }
        let mut text = self.field.clone();
        text.append(":");
        text.append(self.text().as_str());
        assert(":"@ =~= seq![':']);
        text
    }

    /// Whether both the field name and the word are empty.
    pub fn is_empty(&self) -> (b: bool)
        ensures
            b == (self@.0.len() == 0 && self@.1.len() == 0),
    {
        self.field.as_str().unicode_len() == 0 && self.bytes.len() == 0
    }

    /// Replaces the bytes of the word by a copy of `bytes`.
    pub fn copy_bytes(&mut self, bytes: &[u8])
        ensures
            final(self)@ == (old(self)@.0, bytes@),
    {
        self.bytes = slice_to_vec(bytes);
    }
}

} // verus!
