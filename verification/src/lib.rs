//! `schist` is a columnar storage engine.
//!
//! A `schist` database is a self-describing binary file (`.sht`): it carries its
//! schema, its columnar data pages, its dictionary pages, its secondary indexes,
//! its free-space map, its row-id map, and its zone maps, all in one blob. Every
//! module states what it does in contracts over mathematical models and proves
//! it.

use vstd::prelude::*;

pub mod analyze;
pub mod arena;
pub mod array;
pub mod batchio;
pub mod bitmap;
pub mod bitmatrix;
pub mod bits;
pub mod bitset;
pub mod bloom;
pub mod body;
pub mod btree;
pub mod btree_codec;
pub mod btree_model;
pub mod bufferpool;
pub mod bytes;
pub mod catalog;
pub mod checkpoint;
pub mod checksum;
pub mod codec;
pub mod compact;
pub mod compress;
pub mod container;
pub mod cost;
pub mod csvio;
pub mod database;
pub mod datefn;
pub mod decimal;
pub mod diag;
pub mod dict;
pub mod dsu;
pub mod editdist;
pub mod encoding;
pub mod error;
pub mod expr;
pub mod exprvm;
pub mod fault;
pub mod fingerprint;
pub mod format;
pub mod frontcode;
pub mod fsm;
pub mod graph;
pub mod hashindex;
pub mod headroom;
pub mod hll;
pub mod index;
pub mod integrity;
pub mod intern;
pub mod interval;
pub mod join;
pub mod keymap;
pub mod json;
pub mod kmerge;
pub mod lex;
pub mod logical;
pub mod lookup;
pub mod lru;
pub mod minhash;
pub mod mutation;
pub mod numeric;
pub mod order;
pub mod pager;
pub mod pairing;
pub mod partition;
pub mod pattern;
pub mod physical;
pub mod plan;
pub mod pqueue;
pub mod pretty;
pub mod quantile;
pub mod query;
pub mod radixsort;
pub mod radix;
pub mod reach;
pub mod residence;
pub mod rle;
pub mod rowid;
pub mod scc;
pub mod schema;
pub mod sort;
pub mod sql;
pub mod temporal;
pub mod text;
pub mod value;
pub mod varint;
pub mod words;
pub mod zonemap;

pub use database::Database;
pub use error::{Error, Result};
pub use schema::{ColKind, Column, Encoding, Schema};
pub use value::{CmpOp, Value};

verus! {

/// The script and the database of a combined blob.
pub open spec fn parts_of(data: Seq<u8>) -> (Seq<u8>, Seq<u8>) {
    if data.len() < 4 || bytes::u32_at(data, 0) > data.len() - 4 {
        (Seq::empty(), data)
    } else {
        let n = 4 + bytes::u32_at(data, 0) as int;
        (data.subrange(4, n), data.skip(n))
    }
}

/// Split a combined harness blob into `(script_bytes, db_bytes)`.
///
/// Layout: `[u32 LE script_len][script bytes][db bytes]`. If the length prefix
/// is malformed or overruns the buffer, the whole blob is treated as database
/// bytes with an empty script.
pub fn split_combined(data: &[u8]) -> (r: (&[u8], &[u8]))
    ensures
        r.0@ == parts_of(data@).0,
        r.1@ == parts_of(data@).1,
{
    let none = vstd::slice::slice_subrange(data, 0, 0);
    assert(none@ =~= Seq::<u8>::empty());
    if data.len() < 4 {
        return (none, data);
    }
    let len = bytes::get_u32(data, 0) as u64;
    if len > (data.len() - 4) as u64 {
        return (none, data);
    }
    let n: usize = 4 + len as usize;
    let script = vstd::slice::slice_subrange(data, 4, n);
    let db = vstd::slice::slice_subrange(data, n, data.len());
    assert(db@ =~= data@.skip(n as int));
    (script, db)
}

/// A script joined with a database splits into the two again.
pub proof fn lemma_split_combined(script: Seq<u8>, db: Seq<u8>)
    requires
        script.len() <= u32::MAX,
    ensures
        parts_of(bytes::le32(script.len() as u32) + script + db) == (script, db),
{
    let n = script.len() as u32;
    let data = bytes::le32(n) + script + db;
    bytes::lemma_le_bytes_len(n as nat, 4);
    bytes::lemma_u32_between(Seq::empty(), n, script + db);
    assert(Seq::<u8>::empty() + bytes::le32(n) + (script + db) =~= data);
    assert(data.subrange(4, 4 + n) =~= script);
    assert(data.skip(4 + n) =~= db);
}

/// What there is to run in a combined blob: the database, where it decodes, and
/// the text of the script, where it is UTF-8.
pub fn run_combined(data: &[u8]) -> (r: Option<(Database, String)>)
    ensures
        ({
            let (script, db) = parts_of(data@);
            match r {
                Some(x) => crate::format::database_of(db) == Ok::<database::DbModel, error::DecodeError>(x.0@) && x.0.wf()
                    && vstd::utf8::valid_utf8(script) && x.1@ == vstd::utf8::decode_utf8(script),
                None => crate::format::database_of(db) is Err || !vstd::utf8::valid_utf8(script),
            }
        }),
{
    let (script, db) = split_combined(data);
    match crate::format::decode(db) {
        Err(_) => None,
        Ok(db) => {
            let v = bytes::copy_range(script, 0, script.len());
            assert(v@ =~= script@);
            match text::utf8_text(v) {
                Some(s) => Some((db, s)),
                None => None,
            }
        },
    }
}

} // verus!
