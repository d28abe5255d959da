//! The `.sht` container: a directory of checksummed records.
//!
//! ```text
//!   [8 bytes magic: "SCHIST1" + 0x01]
//!   [u32 version = 1]
//!   [u32 num_records]
//!   for each record:
//!     [u8 kind][u32 id][u32 off][u32 len][u32 checksum]
//!   ... record bodies, concatenated in directory order ...
//! ```
//!
//! `checksum` is a simple additive checksum over the body.

use crate::bytes;
use crate::error::DecodeError;
use vstd::prelude::*;

verus! {

pub const VERSION: u32 = 1;

/// The eight bytes that a container starts with.
pub open spec fn magic() -> Seq<u8> {
    seq![0x53u8, 0x43u8, 0x48u8, 0x49u8, 0x53u8, 0x54u8, 0x31u8, 0x01u8]
}

/// One record of a container.
#[derive(Debug, Clone)]
pub struct Record {
    pub kind: u8,
    pub id: u32,
    pub body: Vec<u8>,
}

/// The model of a record.
#[verifier::ext_equal]
pub struct RecordModel {
    pub kind: u8,
    pub id: u32,
    pub body: Seq<u8>,
}

impl View for Record {
    type V = RecordModel;

    open spec fn view(&self) -> RecordModel {
        RecordModel { kind: self.kind, id: self.id, body: self.body@ }
    }
}

pub open spec fn record_models(s: Seq<Record>) -> Seq<RecordModel> {
    Seq::new(s.len(), |i: int| s[i]@)
}

/// The checksum of a body.
pub open spec fn sum_of(s: Seq<u8>) -> u32
    decreases s.len(),
{
    if s.len() == 0 {
        0x811c9dc5
    } else {
        ((sum_of(s.drop_last()) * 0x01000193 + s.last()) % 0x1_0000_0000) as u32
    }
}

/// The checksum of a body.
pub fn checksum(data: &[u8]) -> (r: u32)
    ensures
        r == sum_of(data@),
{
    let mut s: u32 = 0x811c9dc5;
    let mut i: usize = 0;
    assert(data@.take(0) =~= Seq::empty());
    while i < data.len()
        invariant
            i <= data@.len(),
            s == sum_of(data@.take(i as int)),
        decreases data@.len() - i,
    {
        assert(data@.take(i + 1).drop_last() =~= data@.take(i as int));
        s = ((s as u64 * 0x01000193 + data[i] as u64) % 0x1_0000_0000) as u32;
        i += 1;
    }
    assert(data@.take(i as int) =~= data@);
    s
}

/// The bodies of records, one after another.
pub open spec fn bodies(r: Seq<RecordModel>) -> Seq<u8>
    decreases r.len(),
{
    if r.len() == 0 {
        Seq::empty()
    } else {
        bodies(r.drop_last()) + r.last().body
    }
}

/// A directory entry for a body at an offset.
pub open spec fn entry_bytes(r: RecordModel, off: nat) -> Seq<u8> {
    seq![r.kind] + bytes::le32(r.id) + bytes::le32(off as u32) + bytes::le32(r.body.len() as u32) + bytes::le32(
        sum_of(r.body),
    )
}

/// The directory of records.
pub open spec fn directory(r: Seq<RecordModel>) -> Seq<u8>
    decreases r.len(),
{
    if r.len() == 0 {
        Seq::empty()
    } else {
        directory(r.drop_last()) + entry_bytes(r.last(), bodies(r.drop_last()).len())
    }
}

/// The container of records.
pub open spec fn container_bytes(r: Seq<RecordModel>) -> Seq<u8> {
    magic() + bytes::le32(VERSION) + bytes::le32(r.len() as u32) + directory(r) + bodies(r)
}

/// Record `i` of a container that names `n`, or why it cannot be read.
pub open spec fn record_at(s: Seq<u8>, n: nat, i: int) -> Result<RecordModel, DecodeError> {
    let at = 16 + 17 * i;
    let id = bytes::u32_at(s, at + 1);
    let start = 16 + 17 * n + bytes::u32_at(s, at + 5);
    let end = start + bytes::u32_at(s, at + 9);
    if end > s.len() {
        Err(DecodeError::Truncated)
    } else if sum_of(s.subrange(start, end)) != bytes::u32_at(s, at + 13) {
        Err(DecodeError::BadChecksum { page: id })
    } else {
        Ok(RecordModel { kind: s[at], id, body: s.subrange(start, end) })
    }
}

/// The first `k` records of a container that names `n`, or what is wrong with
/// the first that cannot be read.
pub open spec fn records_of(s: Seq<u8>, n: nat, k: nat) -> Result<Seq<RecordModel>, DecodeError>
    decreases k,
{
    if k == 0 {
        Ok(Seq::empty())
    } else {
        match records_of(s, n, (k - 1) as nat) {
            Err(e) => Err(e),
            Ok(r) => match record_at(s, n, k - 1) {
                Err(e) => Err(e),
                Ok(x) => Ok(r.push(x)),
            },
        }
    }
}

/// The records of a container, or why it cannot be read.
pub open spec fn container_of(s: Seq<u8>) -> Result<Seq<RecordModel>, DecodeError> {
    if s.len() < 16 {
        Err(DecodeError::Truncated)
    } else if s.take(8) != magic() {
        Err(DecodeError::BadMagic)
    } else if bytes::u32_at(s, 8) != VERSION {
        Err(DecodeError::UnsupportedVersion(bytes::u32_at(s, 8)))
    } else if 16 + 17 * bytes::u32_at(s, 12) > s.len() {
        Err(DecodeError::Truncated)
    } else {
        records_of(s, bytes::u32_at(s, 12) as nat, bytes::u32_at(s, 12) as nat)
    }
}

proof fn lemma_entry_len(r: RecordModel, off: nat)
    ensures
        entry_bytes(r, off).len() == 17,
{
    bytes::lemma_u32_between(Seq::empty(), r.id, Seq::empty());
    bytes::lemma_u32_between(Seq::empty(), off as u32, Seq::empty());
    bytes::lemma_u32_between(Seq::empty(), r.body.len() as u32, Seq::empty());
    bytes::lemma_u32_between(Seq::empty(), sum_of(r.body), Seq::empty());
}

proof fn lemma_directory(r: Seq<RecordModel>, i: int)
    requires
        0 <= i <= r.len(),
    ensures
        directory(r).len() == 17 * r.len(),
        bodies(r.take(i)).len() <= bodies(r).len(),
        i < r.len() ==> directory(r).subrange(17 * i, 17 * i + 17) == entry_bytes(r[i], bodies(r.take(i)).len()),
        i < r.len() ==> bodies(r.take(i)).len() + r[i].body.len() <= bodies(r).len(),
        i < r.len() ==> bodies(r).subrange(
            bodies(r.take(i)).len() as int,
            (bodies(r.take(i)).len() + r[i].body.len()) as int,
        ) == r[i].body,
    decreases r.len(),
{
    if r.len() > 0 {
        let d = r.drop_last();
        lemma_entry_len(r.last(), bodies(d).len());
        if i < d.len() {
            lemma_directory(d, i);
            assert(d.take(i) =~= r.take(i));
            let b = bodies(r.take(i)).len() as int;
            assert(directory(r).subrange(17 * i, 17 * i + 17) =~= directory(d).subrange(17 * i, 17 * i + 17));
            assert(bodies(r).subrange(b, b + r[i].body.len()) =~= bodies(d).subrange(b, b + r[i].body.len()));
        } else {
            lemma_directory(d, 0);
            if i < r.len() {
                assert(r.take(i) =~= d);
                assert(directory(r).subrange(17 * i, 17 * i + 17) =~= entry_bytes(r[i], bodies(d).len()));
                let b = bodies(d).len() as int;
                assert(bodies(r).subrange(b, b + r[i].body.len()) =~= r[i].body);
            } else {
                assert(r.take(i) =~= r);
            }
        }
    } else {
        assert(r.take(i) =~= r);
    }
}

proof fn lemma_entry_reads(a: Seq<u8>, r: RecordModel, off: nat, b: Seq<u8>)
    ensures
        ({
            let s = a + entry_bytes(r, off) + b;
            let at = a.len() as int;
            &&& s[at] == r.kind
            &&& bytes::u32_at(s, at + 1) == r.id
            &&& bytes::u32_at(s, at + 5) == off as u32
            &&& bytes::u32_at(s, at + 9) == r.body.len() as u32
            &&& bytes::u32_at(s, at + 13) == sum_of(r.body)
        }),
{
    let s = a + entry_bytes(r, off) + b;
    let k = seq![r.kind];
    let x = bytes::le32(r.id);
    let y = bytes::le32(off as u32);
    let z = bytes::le32(r.body.len() as u32);
    let c = bytes::le32(sum_of(r.body));
    bytes::lemma_u32_between(a + k, r.id, y + z + c + b);
    assert(s =~= (a + k) + x + (y + z + c + b));
    bytes::lemma_u32_between(a + k + x, off as u32, z + c + b);
    assert(s =~= (a + k + x) + y + (z + c + b));
    bytes::lemma_u32_between(a + k + x + y, r.body.len() as u32, c + b);
    assert(s =~= (a + k + x + y) + z + (c + b));
    bytes::lemma_u32_between(a + k + x + y + z, sum_of(r.body), b);
    assert(s =~= (a + k + x + y + z) + c + b);
}

proof fn lemma_record_at(r: Seq<RecordModel>, i: int)
    requires
        0 <= i < r.len(),
        r.len() <= u32::MAX,
        bodies(r).len() <= u32::MAX,
    ensures
        record_at(container_bytes(r), r.len(), i) == Ok::<RecordModel, DecodeError>(r[i]),
{
    let s = container_bytes(r);
    let head = magic() + bytes::le32(VERSION) + bytes::le32(r.len() as u32);
    bytes::lemma_u32_between(Seq::empty(), VERSION, Seq::empty());
    bytes::lemma_u32_between(Seq::empty(), r.len() as u32, Seq::empty());
    assert(head.len() == 16);
    lemma_directory(r, i);
    let off = bodies(r.take(i)).len();
    lemma_entry_len(r[i], off);
    lemma_sections(head, directory(r), bodies(r), 17 * i, off as int, (off + r[i].body.len()) as int);
    let at = 16 + 17 * i;
    lemma_entry_reads(s.take(at), r[i], off, s.skip(at + 17));
}

/// Parts of three sequences found in their concatenation.
proof fn lemma_sections(head: Seq<u8>, dir: Seq<u8>, rest: Seq<u8>, x: int, p: int, q: int)
    requires
        head.len() == 16,
        0 <= x,
        x + 17 <= dir.len(),
        0 <= p <= q <= rest.len(),
    ensures
        ({
            let s = head + dir + rest;
            &&& s == s.take(16 + x) + dir.subrange(x, x + 17) + s.skip(16 + x + 17)
            &&& s.take(16 + x).len() == 16 + x
            &&& s.subrange(16 + dir.len() + p, 16 + dir.len() + q) == rest.subrange(p, q)
            &&& s.len() == 16 + dir.len() + rest.len()
        }),
{
    let s = head + dir + rest;
    assert(s =~= s.take(16 + x) + dir.subrange(x, x + 17) + s.skip(16 + x + 17));
    assert(s.subrange(16 + dir.len() + p, 16 + dir.len() + q) =~= rest.subrange(p, q));
}

proof fn lemma_records(r: Seq<RecordModel>, k: nat)
    requires
        k <= r.len(),
        r.len() <= u32::MAX,
        bodies(r).len() <= u32::MAX,
    ensures
        records_of(container_bytes(r), r.len(), k) == Ok::<Seq<RecordModel>, DecodeError>(r.take(k as int)),
    decreases k,
{
    if k > 0 {
        lemma_records(r, (k - 1) as nat);
        lemma_record_at(r, k - 1);
        assert(r.take(k - 1).push(r[k - 1]) =~= r.take(k as int));
    } else {
        assert(r.take(0) =~= Seq::empty());
    }
}

/// Reading a container gives back the records that it was made of.
pub proof fn lemma_container_round_trip(r: Seq<RecordModel>)
    requires
        r.len() <= u32::MAX,
        bodies(r).len() <= u32::MAX,
    ensures
        container_of(container_bytes(r)) == Ok::<Seq<RecordModel>, DecodeError>(r),
{
    let s = container_bytes(r);
    let d = directory(r) + bodies(r);
    lemma_directory(r, 0);
    bytes::lemma_u32_between(magic(), VERSION, bytes::le32(r.len() as u32) + d);
    assert(s =~= magic() + bytes::le32(VERSION) + (bytes::le32(r.len() as u32) + d));
    bytes::lemma_u32_between(magic() + bytes::le32(VERSION), r.len() as u32, d);
    assert(s =~= (magic() + bytes::le32(VERSION)) + bytes::le32(r.len() as u32) + d);
    assert(s.take(8) =~= magic());
    lemma_records(r, r.len());
    assert(r.take(r.len() as int) =~= r);
}

fn put_magic(out: &mut Vec<u8>)
    ensures
        final(out)@ == old(out)@ + magic(),
{
    out.push(0x53);
    out.push(0x43);
    out.push(0x48);
    out.push(0x49);
    out.push(0x53);
    out.push(0x54);
    out.push(0x31);
    out.push(0x01);
    assert(out@ =~= old(out)@ + magic());
}

/// Lay out the directory and the bodies of records.
pub fn encode_container(records: &Vec<Record>) -> (out: Vec<u8>)
    requires
        records@.len() <= u32::MAX,
        bodies(record_models(records@)).len() <= u32::MAX,
    ensures
        out@ == container_bytes(record_models(records@)),
{
    let ghost r = record_models(records@);
    let mut out: Vec<u8> = Vec::new();
    put_magic(&mut out);
    bytes::put_u32(&mut out, VERSION);
    bytes::put_u32(&mut out, records.len() as u32);
    let ghost head = out@;
    let mut off: u32 = 0;
    let mut i: usize = 0;
    assert(r.take(0) =~= Seq::empty());
    while i < records.len()
        invariant
            i <= records@.len(),
            r == record_models(records@),
            bodies(r).len() <= u32::MAX,
            off == bodies(r.take(i as int)).len(),
            out@ == head + directory(r.take(i as int)),
        decreases records@.len() - i,
    {
        let rec = &records[i];
        let ghost was = out@;
        proof {
            assert(r[i as int] == rec@);
            lemma_directory(r, i as int);
            assert(r.take(i + 1).drop_last() =~= r.take(i as int));
        }
        out.push(rec.kind);
        bytes::put_u32(&mut out, rec.id);
        bytes::put_u32(&mut out, off);
        bytes::put_u32(&mut out, rec.body.len() as u32);
        bytes::put_u32(&mut out, checksum(rec.body.as_slice()));
        assert(out@ =~= was + entry_bytes(r[i as int], off as nat));
        off = off + rec.body.len() as u32;
        assert(out@ =~= head + directory(r.take(i + 1)));
        i += 1;
    }
    assert(r.take(i as int) =~= r);
    let ghost head = out@;
    let mut i: usize = 0;
    while i < records.len()
        invariant
            i <= records@.len(),
            r == record_models(records@),
            out@ == head + bodies(r.take(i as int)),
        decreases records@.len() - i,
    {
        proof {
            assert(r[i as int] == records@[i as int]@);
            assert(r.take(i + 1).drop_last() =~= r.take(i as int));
        }
        bytes::put_bytes(&mut out, records[i].body.as_slice());
        assert(out@ =~= head + bodies(r.take(i + 1)));
        i += 1;
    }
    assert(r.take(i as int) =~= r);
    assert(out@ =~= container_bytes(r));
    out
}

/// Read the directory and the bodies of a container.
pub fn decode_container(data: &[u8]) -> (r: Result<Vec<Record>, DecodeError>)
    ensures
        match r {
            Ok(v) => container_of(data@) == Ok::<Seq<RecordModel>, DecodeError>(record_models(v@)),
            Err(e) => container_of(data@) == Err::<Seq<RecordModel>, DecodeError>(e),
        },
{
    if data.len() < 16 {
        return Err(DecodeError::Truncated);
    }
    let mut expected: Vec<u8> = Vec::new();
    put_magic(&mut expected);
    assert(expected@ =~= magic());
    let front = vstd::slice::slice_subrange(data, 0, 8);
    assert(front@ =~= data@.take(8));
    if !bytes::bytes_eq(front, expected.as_slice()) {
        return Err(DecodeError::BadMagic);
    }
    let version: u32 = bytes::get_u32(data, 8);
    if version != VERSION {
        return Err(DecodeError::UnsupportedVersion(version));
    }
    let n: u32 = bytes::get_u32(data, 12);
    if n as usize > (data.len() - 16) / 17 {
        return Err(DecodeError::Truncated);
    }
    let start: usize = 16 + 17 * (n as usize);
    let mut out: Vec<Record> = Vec::new();
    let mut i: u32 = 0;
    assert(record_models(out@) =~= Seq::empty());
    while i < n
        invariant
            i <= n,
            n == bytes::u32_at(data@, 12),
            start == 16 + 17 * n,
            start <= data@.len(),
            container_of(data@) == records_of(data@, n as nat, n as nat),
            records_of(data@, n as nat, i as nat) == Ok::<Seq<RecordModel>, DecodeError>(record_models(out@)),
        decreases n - i,
    {
        assert(16 + 17 * n <= data.len());
        let at: usize = 16 + 17 * (i as usize);
        let kind: u8 = data[at];
        let id: u32 = bytes::get_u32(data, at + 1);
        let off: usize = bytes::get_u32(data, at + 5) as usize;
        let len: usize = bytes::get_u32(data, at + 9) as usize;
        let sum: u32 = bytes::get_u32(data, at + 13);
        if off > data.len() - start || len > data.len() - start - off {
            proof {
                lemma_first_error(data@, n as nat, (i + 1) as nat, n as nat);
            }
            return Err(DecodeError::Truncated);
        }
        let body = bytes::copy_range(data, start + off, start + off + len);
        if checksum(body.as_slice()) != sum {
            proof {
                lemma_first_error(data@, n as nat, (i + 1) as nat, n as nat);
            }
            return Err(DecodeError::BadChecksum { page: id });
        }
        let ghost was = out@;
        let rec = Record { kind, id, body };
        let ghost m = rec@;
        out.push(rec);
        assert(record_models(out@) =~= record_models(was).push(m));
        i += 1;
    }
    Ok(out)
}

proof fn lemma_first_error(s: Seq<u8>, n: nat, a: nat, b: nat)
    requires
        a <= b,
        records_of(s, n, a) is Err,
    ensures
        records_of(s, n, b) == records_of(s, n, a),
    decreases b - a,
{
    if a < b {
        lemma_first_error(s, n, a, (b - 1) as nat);
    }
}

} // verus!
