//! The JSON texts that the files of a partitioned map hold: one line for
//! each entry, and one list of short keys for each map.
//!
//! The texts are written and read by `serde_json`. What it writes for a
//! value, and what value it reads from a text, is not spelled out here: each
//! is given a name, and the rest of the crate reasons over the names.

use vstd::prelude::*;
use crate::keys::Key;

verus! {

/// The error type of `serde_json`.
#[verifier::external_type_specification]
#[verifier::external_body]
pub struct ExJsonError(serde_json::Error);

/// The text that `serde_json::to_string` gives for the pair of an integer
/// and a string, or `None` where it fails.
pub uninterp spec fn json_of_id_text(key: u32, value: Seq<char>) -> Option<Seq<char>>;

/// The pair of an integer and a string that `serde_json::from_str` reads
/// from a text, or `None` where it fails.
pub uninterp spec fn id_text_of_json(text: Seq<char>) -> Option<(u32, Seq<char>)>;

/// The text that `serde_json::to_string` gives for the pair of a string and
/// an integer, or `None` where it fails.
pub uninterp spec fn json_of_text_id(key: Seq<char>, value: u32) -> Option<Seq<char>>;

/// The pair of a string and an integer that `serde_json::from_str` reads
/// from a text, or `None` where it fails.
pub uninterp spec fn text_id_of_json(text: Seq<char>) -> Option<(Seq<char>, u32)>;

/// The text that `serde_json::to_string` gives for the pair of an integer
/// and a list of integers, or `None` where it fails.
pub uninterp spec fn json_of_id_ids(key: u32, value: Seq<u32>) -> Option<Seq<char>>;

/// The pair of an integer and a list of integers that
/// `serde_json::from_str` reads from a text, or `None` where it fails.
pub uninterp spec fn id_ids_of_json(text: Seq<char>) -> Option<(u32, Seq<u32>)>;

/// The text that `serde_json::to_string` gives for a list of small
/// integers, or `None` where it fails.
pub uninterp spec fn json_of_small_ids(keys: Seq<u8>) -> Option<Seq<char>>;

/// The list of small integers that `serde_json::from_str` reads from a text,
/// or `None` where it fails.
pub uninterp spec fn small_ids_of_json(text: Seq<char>) -> Option<Seq<u8>>;

/// The text that `serde_json::to_string` gives for a list of strings, or
/// `None` where it fails.
pub uninterp spec fn json_of_texts(keys: Seq<Seq<char>>) -> Option<Seq<char>>;

/// The list of strings that `serde_json::from_str` reads from a text, or
/// `None` where it fails.
pub uninterp spec fn texts_of_json(text: Seq<char>) -> Option<Seq<Seq<char>>>;

/// The views of a vector of strings.
pub open spec fn texts(v: Seq<String>) -> Seq<Seq<char>> {
    v.map_values(|s: String| s@)
}

/// Trusted: calls `serde_json::to_string` on the pair `(key, value)`. The
/// result is given the name `json_of_id_text`; nothing else is claimed.
#[verifier::external_body]
fn write_id_text(key: u32, value: &String) -> (r: Result<String, serde_json::Error>)
    ensures
        match r {
            Ok(s) => json_of_id_text(key, value@) == Some(s@),
            Err(_) => json_of_id_text(key, value@) is None,
        },
{
    serde_json::to_string(&(key, value))
}

/// Trusted: calls `serde_json::from_str` for a pair of a `u32` and a
/// `String`. The result is given the name `id_text_of_json`.
#[verifier::external_body]
fn read_id_text(text: &str) -> (r: Result<(u32, String), serde_json::Error>)
    ensures
        match r {
            Ok(pair) => id_text_of_json(text@) == Some((pair.0, pair.1@)),
            Err(_) => id_text_of_json(text@) is None,
        },
{
    serde_json::from_str::<(u32, String)>(text)
}

/// Trusted: calls `serde_json::to_string` on the pair `(key, value)`. The
/// result is given the name `json_of_text_id`.
#[verifier::external_body]
fn write_text_id(key: &String, value: u32) -> (r: Result<String, serde_json::Error>)
    ensures
        match r {
            Ok(s) => json_of_text_id(key@, value) == Some(s@),
            Err(_) => json_of_text_id(key@, value) is None,
        },
{
    serde_json::to_string(&(key, value))
}

/// Trusted: calls `serde_json::from_str` for a pair of a `String` and a
/// `u32`. The result is given the name `text_id_of_json`.
#[verifier::external_body]
fn read_text_id(text: &str) -> (r: Result<(String, u32), serde_json::Error>)
    ensures
        match r {
            Ok(pair) => text_id_of_json(text@) == Some((pair.0@, pair.1)),
            Err(_) => text_id_of_json(text@) is None,
        },
{
    serde_json::from_str::<(String, u32)>(text)
}

/// Trusted: calls `serde_json::to_string` on the pair `(key, value)`. The
/// result is given the name `json_of_id_ids`.
#[verifier::external_body]
fn write_id_ids(key: u32, value: &Vec<u32>) -> (r: Result<String, serde_json::Error>)
    ensures
        match r {
            Ok(s) => json_of_id_ids(key, value@) == Some(s@),
            Err(_) => json_of_id_ids(key, value@) is None,
        },
{
    serde_json::to_string(&(key, value))
}

/// Trusted: calls `serde_json::from_str` for a pair of a `u32` and a
/// `Vec<u32>`. The result is given the name `id_ids_of_json`.
#[verifier::external_body]
fn read_id_ids(text: &str) -> (r: Result<(u32, Vec<u32>), serde_json::Error>)
    ensures
        match r {
            Ok(pair) => id_ids_of_json(text@) == Some((pair.0, pair.1@)),
            Err(_) => id_ids_of_json(text@) is None,
        },
{
    serde_json::from_str::<(u32, Vec<u32>)>(text)
}

/// Trusted: calls `serde_json::to_string` on a list of `u8`. The result is
/// given the name `json_of_small_ids`.
#[verifier::external_body]
fn write_small_ids(keys: &Vec<u8>) -> (r: Result<String, serde_json::Error>)
    ensures
        match r {
            Ok(s) => json_of_small_ids(keys@) == Some(s@),
            Err(_) => json_of_small_ids(keys@) is None,
        },
{
    serde_json::to_string(keys)
}

/// Trusted: calls `serde_json::from_str` for a `Vec<u8>`. The result is
/// given the name `small_ids_of_json`.
#[verifier::external_body]
fn read_small_ids(text: &str) -> (r: Result<Vec<u8>, serde_json::Error>)
    ensures
        match r {
            Ok(keys) => small_ids_of_json(text@) == Some(keys@),
            Err(_) => small_ids_of_json(text@) is None,
        },
{
    serde_json::from_str::<Vec<u8>>(text)
}

/// Trusted: calls `serde_json::to_string` on a list of `String`. The result
/// is given the name `json_of_texts`.
#[verifier::external_body]
fn write_texts(keys: &Vec<String>) -> (r: Result<String, serde_json::Error>)
    ensures
        match r {
            Ok(s) => json_of_texts(texts(keys@)) == Some(s@),
            Err(_) => json_of_texts(texts(keys@)) is None,
        },
{
    serde_json::to_string(keys)
}

/// Trusted: calls `serde_json::from_str` for a `Vec<String>`. The result is
/// given the name `texts_of_json`.
#[verifier::external_body]
fn read_texts(text: &str) -> (r: Result<Vec<String>, serde_json::Error>)
    ensures
        match r {
            Ok(keys) => texts_of_json(text@) == Some(texts(keys@)),
            Err(_) => texts_of_json(text@) is None,
        },
{
    serde_json::from_str::<Vec<String>>(text)
}

/// A key type whose entries with values of type `V` have a line of JSON.
pub trait Record<V: View>: Key {
    /// The line that stands for the entry, where it has one.
    spec fn line(key: Self::V, value: V::V) -> Option<Seq<char>>;

    /// The entry that a line stands for, where it stands for one.
    spec fn record(line: Seq<char>) -> Option<(Self::V, V::V)>;

    /// Writes the line of an entry.
    fn encode(key: &Self, value: &V) -> (r: Option<String>)
        ensures
            match r {
                Some(s) => Self::line(key@, value@) == Some(s@),
                None => Self::line(key@, value@) is None,
            },
    ;

    /// Reads the entry of a line.
    fn decode(line: &str) -> (r: Option<(Self, V)>)
        ensures
            match r {
                Some(pair) => Self::record(line@) == Some((pair.0@, pair.1@)),
                None => Self::record(line@) is None,
            },
    ;
}

impl Record<String> for u32 {
    open spec fn line(key: u32, value: Seq<char>) -> Option<Seq<char>> {
        json_of_id_text(key, value)
    }

    open spec fn record(line: Seq<char>) -> Option<(u32, Seq<char>)> {
        id_text_of_json(line)
    }

    fn encode(key: &u32, value: &String) -> (r: Option<String>) {
        match write_id_text(*key, value) {
            Ok(s) => Some(s),
            Err(_) => None,
        }
    }

    fn decode(line: &str) -> (r: Option<(u32, String)>) {
        match read_id_text(line) {
            Ok(pair) => Some(pair),
            Err(_) => None,
        }
    }
}

impl Record<u32> for String {
    open spec fn line(key: Seq<char>, value: u32) -> Option<Seq<char>> {
        json_of_text_id(key, value)
    }

    open spec fn record(line: Seq<char>) -> Option<(Seq<char>, u32)> {
        text_id_of_json(line)
    }

    fn encode(key: &String, value: &u32) -> (r: Option<String>) {
        match write_text_id(key, *value) {
            Ok(s) => Some(s),
            Err(_) => None,
        }
    }

    fn decode(line: &str) -> (r: Option<(String, u32)>) {
        match read_text_id(line) {
            Ok(pair) => Some(pair),
            Err(_) => None,
        }
    }
}

impl Record<Vec<u32>> for u32 {
    open spec fn line(key: u32, value: Seq<u32>) -> Option<Seq<char>> {
        json_of_id_ids(key, value)
    }

    open spec fn record(line: Seq<char>) -> Option<(u32, Seq<u32>)> {
        id_ids_of_json(line)
    }

    fn encode(key: &u32, value: &Vec<u32>) -> (r: Option<String>) {
        match write_id_ids(*key, value) {
            Ok(s) => Some(s),
            Err(_) => None,
        }
    }

    fn decode(line: &str) -> (r: Option<(u32, Vec<u32>)>) {
        match read_id_ids(line) {
            Ok(pair) => Some(pair),
            Err(_) => None,
        }
    }
}

/// The views of a vector of keys.
pub open spec fn key_views<K: Key>(keys: Seq<K>) -> Seq<K::V> {
    keys.map_values(|k: K| k@)
}

/// A short-key type whose lists have a JSON text.
pub trait Listed: Key {
    /// The text that stands for the list, where it has one.
    spec fn listed(keys: Seq<Self::V>) -> Option<Seq<char>>;

    /// The list that a text stands for, where it stands for one.
    spec fn unlisted(text: Seq<char>) -> Option<Seq<Self::V>>;

    /// Writes the text of a list.
    fn encode_list(keys: &Vec<Self>) -> (r: Option<String>)
        ensures
            match r {
                Some(s) => Self::listed(key_views::<Self>(keys@)) == Some(s@),
                None => Self::listed(key_views::<Self>(keys@)) is None,
            },
    ;

    /// Reads the list of a text.
    fn decode_list(text: &str) -> (r: Option<Vec<Self>>)
        ensures
            match r {
                Some(keys) => Self::unlisted(text@) == Some(key_views::<Self>(keys@)),
                None => Self::unlisted(text@) is None,
            },
    ;
}

impl Listed for u8 {
    open spec fn listed(keys: Seq<u8>) -> Option<Seq<char>> {
        json_of_small_ids(keys)
    }

    open spec fn unlisted(text: Seq<char>) -> Option<Seq<u8>> {
        small_ids_of_json(text)
    }

    fn encode_list(keys: &Vec<u8>) -> (r: Option<String>) {
        assert(key_views::<u8>(keys@) =~= keys@);
        match write_small_ids(keys) {
            Ok(s) => Some(s),
            Err(_) => None,
        }
    }

    fn decode_list(text: &str) -> (r: Option<Vec<u8>>) {
        match read_small_ids(text) {
            Ok(keys) => {
                assert(key_views::<u8>(keys@) =~= keys@);
                Some(keys)
            },
            Err(_) => None,
        }
    }
}

impl Listed for String {
    open spec fn listed(keys: Seq<Seq<char>>) -> Option<Seq<char>> {
        json_of_texts(keys)
    }

    open spec fn unlisted(text: Seq<char>) -> Option<Seq<Seq<char>>> {
        texts_of_json(text)
    }

    fn encode_list(keys: &Vec<String>) -> (r: Option<String>) {
        assert(key_views::<String>(keys@) =~= texts(keys@));
        match write_texts(keys) {
            Ok(s) => Some(s),
            Err(_) => None,
        }
    }

    fn decode_list(text: &str) -> (r: Option<Vec<String>>) {
        match read_texts(text) {
            Ok(keys) => {
                assert(key_views::<String>(keys@) =~= texts(keys@));
                Some(keys)
            },
            Err(_) => None,
        }
    }
}

} // verus!
