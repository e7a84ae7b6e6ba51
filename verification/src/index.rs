//! The staging index: entries describing tracked files, their binary
//! layout, and the name-keyed table that holds them.

use vstd::prelude::*;
use vstd::utf8::*;
use crate::wire::{lemma_be16_roundtrip, lemma_be16_value, lemma_be32_roundtrip, be16, be32, u16_at, u32_at, push_u16_be, push_u32_be, push_bytes, read_u16_be, read_u32_be, read_array};
use crate::text::{ascii_chars, decimal_list, decimal_list_string, decode_lossy, string_from_utf8_lossy};

verus! {

/// Reading stopped because the input ended inside a record.
#[derive(Debug, Clone, Copy, PartialEq, Eq, Structural)]
pub enum DecodeError {
    UnexpectedEof,
}

/// The metadata stored for one tracked file.
#[derive(Debug, Clone, PartialEq, Eq)]
pub struct GitIndexEntry {
    pub ctime_s: u32,
    pub ctime_n: u32,
    pub mtime_n: u32,
    pub mtime_s: u32,
    pub dev: u32,
    pub ino: u32,
    pub mode: u32,
    pub uid: u32,
    pub gid: u32,
    pub fsize: u32,
    pub sha1: [u8; 20],
    pub flags: u16,
    pub name: String,
}

/// The value of an entry: its numbers, its 20 digest bytes and its name.
#[verifier::ext_equal]
pub struct EntryModel {
    pub ctime_s: u32,
    pub ctime_n: u32,
    pub mtime_n: u32,
    pub mtime_s: u32,
    pub dev: u32,
    pub ino: u32,
    pub mode: u32,
    pub uid: u32,
    pub gid: u32,
    pub fsize: u32,
    pub sha1: Seq<u8>,
    pub flags: u16,
    pub name: Seq<char>,
}

impl View for GitIndexEntry {
    type V = EntryModel;

    open spec fn view(&self) -> EntryModel {
        EntryModel {
            ctime_s: self.ctime_s,
            ctime_n: self.ctime_n,
            mtime_n: self.mtime_n,
            mtime_s: self.mtime_s,
            dev: self.dev,
            ino: self.ino,
            mode: self.mode,
            uid: self.uid,
            gid: self.gid,
            fsize: self.fsize,
            sha1: self.sha1@,
            flags: self.flags,
            name: self.name@,
        }
    }
}

/// The length written before a name: its UTF-8 byte count, cut to 16 bits.
pub open spec fn name_len_field(name: Seq<char>) -> u16 {
    (encode_utf8(name).len() % 65536) as u16
}

/// The bytes written for an entry: ten big-endian `u32` fields (with the
/// modification time's seconds before its nanoseconds), the digest, the
/// flags, the name's length and the name.
#[verifier::opaque]
pub open spec fn entry_bytes(e: EntryModel) -> Seq<u8> {
    be32(e.ctime_s) + be32(e.ctime_n) + be32(e.mtime_s) + be32(e.mtime_n) + be32(e.dev) + be32(
        e.ino,
    ) + be32(e.mode) + be32(e.uid) + be32(e.gid) + be32(e.fsize) + e.sha1 + be16(e.flags) + be16(
        name_len_field(e.name),
    ) + encode_utf8(e.name)
}

/// The bytes of an entry end with the number of bytes of its name, as a
/// big-endian base-256 number, followed by the name's bytes.
pub proof fn lemma_entry_name_field(e: EntryModel)
    requires
        e.sha1.len() == 20,
        encode_utf8(e.name).len() < 65536,
    ensures
        entry_bytes(e).len() == 64 + encode_utf8(e.name).len(),
        entry_bytes(e)[62] as int * 256 + entry_bytes(e)[63] as int == encode_utf8(e.name).len(),
        entry_bytes(e).subrange(64, entry_bytes(e).len() as int) == encode_utf8(e.name),
{
    reveal(entry_bytes);
    let nb = encode_utf8(e.name);
    let x = name_len_field(e.name);
    assert(x as int == nb.len());
    lemma_be16_value(x);
    let d = entry_bytes(e);
    assert(d[62] == be16(x)[0] && d[63] == be16(x)[1]);
    assert(d.subrange(64, d.len() as int) =~= nb);
}

/// Reading an entry: two leading bytes are skipped, then come the fields in
/// the order `entry_bytes` writes them; the name is decoded lossily.
/// `None` when the input ends first; otherwise the entry and the number of
/// bytes it took.
pub open spec fn parse_entry(d: Seq<u8>) -> Option<(EntryModel, nat)> {
    if d.len() < 66 {
        None
    } else {
        let nl = u16_at(d, 64) as int;
        if d.len() < 66 + nl {
            None
        } else {
            Some(
                (
                    EntryModel {
                        ctime_s: u32_at(d, 2),
                        ctime_n: u32_at(d, 6),
                        mtime_s: u32_at(d, 10),
                        mtime_n: u32_at(d, 14),
                        dev: u32_at(d, 18),
                        ino: u32_at(d, 22),
                        mode: u32_at(d, 26),
                        uid: u32_at(d, 30),
                        gid: u32_at(d, 34),
                        fsize: u32_at(d, 38),
                        sha1: d.subrange(42, 62),
                        flags: u16_at(d, 62),
                        name: decode_lossy(d.subrange(66, 66 + nl)),
                    },
                    (66 + nl) as nat,
                ),
            )
        }
    }
}


/// An entry is read back from the bytes written for it, whatever the two
/// bytes the reader skips in front of them and whatever follows them,
/// provided the UTF-8 form of its name is shorter than 65536 bytes.
pub proof fn lemma_entry_roundtrip(e: EntryModel, h0: u8, h1: u8, rest: Seq<u8>)
    requires
        e.sha1.len() == 20,
        encode_utf8(e.name).len() < 65536,
    ensures
        entry_bytes(e).len() == 64 + encode_utf8(e.name).len(),
        parse_entry(seq![h0, h1] + entry_bytes(e) + rest) == Some(
            (e, (66 + encode_utf8(e.name).len()) as nat),
        ),
{
    reveal(entry_bytes);
    let nb = encode_utf8(e.name);
    let d = seq![h0, h1] + entry_bytes(e) + rest;
    assert(d.len() == 66 + nb.len() + rest.len());
    assert(d.subrange(2, 6) =~= be32(e.ctime_s));
    assert(d.subrange(6, 10) =~= be32(e.ctime_n));
    assert(d.subrange(10, 14) =~= be32(e.mtime_s));
    assert(d.subrange(14, 18) =~= be32(e.mtime_n));
    assert(d.subrange(18, 22) =~= be32(e.dev));
    assert(d.subrange(22, 26) =~= be32(e.ino));
    assert(d.subrange(26, 30) =~= be32(e.mode));
    assert(d.subrange(30, 34) =~= be32(e.uid));
    assert(d.subrange(34, 38) =~= be32(e.gid));
    assert(d.subrange(38, 42) =~= be32(e.fsize));
    assert(d.subrange(42, 62) =~= e.sha1);
    assert(d.subrange(62, 64) =~= be16(e.flags));
    assert(d.subrange(64, 66) =~= be16(name_len_field(e.name)));
    assert(d.subrange(66, 66 + nb.len() as int) =~= nb);
    lemma_be32_roundtrip(e.ctime_s);
    lemma_be32_roundtrip(e.ctime_n);
    lemma_be32_roundtrip(e.mtime_s);
    lemma_be32_roundtrip(e.mtime_n);
    lemma_be32_roundtrip(e.dev);
    lemma_be32_roundtrip(e.ino);
    lemma_be32_roundtrip(e.mode);
    lemma_be32_roundtrip(e.uid);
    lemma_be32_roundtrip(e.gid);
    lemma_be32_roundtrip(e.fsize);
    lemma_be16_roundtrip(e.flags);
    lemma_be16_roundtrip(name_len_field(e.name));
    assert(u32_at(d, 2) == u32_at(d.subrange(2, 6), 0));
    assert(u32_at(d, 6) == u32_at(d.subrange(6, 10), 0));
    assert(u32_at(d, 10) == u32_at(d.subrange(10, 14), 0));
    assert(u32_at(d, 14) == u32_at(d.subrange(14, 18), 0));
    assert(u32_at(d, 18) == u32_at(d.subrange(18, 22), 0));
    assert(u32_at(d, 22) == u32_at(d.subrange(22, 26), 0));
    assert(u32_at(d, 26) == u32_at(d.subrange(26, 30), 0));
    assert(u32_at(d, 30) == u32_at(d.subrange(30, 34), 0));
    assert(u32_at(d, 34) == u32_at(d.subrange(34, 38), 0));
    assert(u32_at(d, 38) == u32_at(d.subrange(38, 42), 0));
    assert(u16_at(d, 62) == u16_at(d.subrange(62, 64), 0));
    assert(u16_at(d, 64) == u16_at(d.subrange(64, 66), 0));
    assert(name_len_field(e.name) as int == nb.len());
    encode_utf8_valid_utf8(e.name);
    encode_utf8_decode_utf8(e.name);
    assert(decode_lossy(nb) == e.name);
    assert(parse_entry(d).unwrap().0 =~= e);
}

impl GitIndexEntry {
    /// Appends the entry's bytes.
    pub fn serialize(&self, out: &mut Vec<u8>)
        ensures
            final(out)@ == old(out)@ + entry_bytes(self@),
    {
        let ghost start = out@;
        reveal(entry_bytes);
        push_u32_be(out, self.ctime_s);
        push_u32_be(out, self.ctime_n);
        push_u32_be(out, self.mtime_s);
        push_u32_be(out, self.mtime_n);
        push_u32_be(out, self.dev);
        push_u32_be(out, self.ino);
        push_u32_be(out, self.mode);
        push_u32_be(out, self.uid);
        push_u32_be(out, self.gid);
        push_u32_be(out, self.fsize);
        push_bytes(out, self.sha1.as_slice());
        push_u16_be(out, self.flags);
        let name_bytes = self.name.as_str().as_bytes();
        let len = name_bytes.len();
        push_u16_be(out, (len % 65536) as u16);
        push_bytes(out, name_bytes);
        assert(out@ =~= start + entry_bytes(self@));
    }

    /// Reads one entry from the start of `data`, giving the entry and the
    /// number of bytes it took.
    pub fn deserialize(data: &[u8]) -> (res: Result<(GitIndexEntry, usize), DecodeError>)
        ensures
            parse_entry(data@) is None <==> res is Err,
            res matches Ok((e, n)) ==> parse_entry(data@) == Some((e@, n as nat)),
    {
        if data.len() < 66 {
            return Err(DecodeError::UnexpectedEof);
        }
        let ctime_s = read_u32_be(data, 2);
        let ctime_n = read_u32_be(data, 6);
        let mtime_s = read_u32_be(data, 10);
        let mtime_n = read_u32_be(data, 14);
        let dev = read_u32_be(data, 18);
        let ino = read_u32_be(data, 22);
        let mode = read_u32_be(data, 26);
        let uid = read_u32_be(data, 30);
        let gid = read_u32_be(data, 34);
        let fsize = read_u32_be(data, 38);
        let sha1 = read_array::<20>(data, 42);
        let flags = read_u16_be(data, 62);
        let name_len = read_u16_be(data, 64) as usize;
        if data.len() - 66 < name_len {
            return Err(DecodeError::UnexpectedEof);
        }
        let name = string_from_utf8_lossy(&data[66..66 + name_len]);
        let entry = GitIndexEntry {
            ctime_s,
            ctime_n,
            mtime_n,
            mtime_s,
            dev,
            ino,
            mode,
            uid,
            gid,
            fsize,
            sha1,
            flags,
            name,
        };
        assert(entry@ =~= parse_entry(data@).unwrap().0);
        Ok((entry, 66 + name_len))
    }
}

/// The upper 16 bits of a mode, which name the kind of object.
pub open spec fn mode_kind_bits(mode: u32) -> u16 {
    ((mode >> 16u32) & 0xffffu32) as u16
}

/// The kind bits are among those the listing knows.
pub open spec fn index_mode_known(mode: u32) -> bool {
    let k = mode_kind_bits(mode);
    k == 4 || k == 10 || k == 12 || k == 16
}

/// The word the listing shows for a mode.
pub open spec fn index_mode_word(mode: u32) -> Seq<char> {
    let k = mode_kind_bits(mode);
    if k == 4 {
        "tree"@
    } else if k == 10 || k == 12 {
        "blob"@
    } else if k == 16 {
        "commit"@
    } else {
        "_"@
    }
}

/// The kind bits are the mode's upper sixteen bits: kind 4 is shown as
/// "tree", kinds 10 and 12 as "blob", kind 16 as "commit", and a mode is
/// known exactly when its word is not "_".
pub proof fn lemma_index_mode_word(mode: u32)
    ensures
        mode_kind_bits(mode) as int == mode as int / 65536,
        index_mode_word(mode) == "tree"@ <==> mode as int / 65536 == 4,
        index_mode_word(mode) == "blob"@ <==> (mode as int / 65536 == 10 || mode as int / 65536
            == 12),
        index_mode_word(mode) == "commit"@ <==> mode as int / 65536 == 16,
        index_mode_known(mode) <==> index_mode_word(mode) != "_"@,
{
    assert(((mode >> 16u32) & 0xffffu32) == mode / 65536u32) by (bit_vector);
    reveal_strlit("tree");
    reveal_strlit("blob");
    reveal_strlit("commit");
    reveal_strlit("_");
    let w = index_mode_word(mode);
    assert(w == "tree"@ ==> w.len() == 4 && w[0] == 't');
    assert(w == "blob"@ ==> w.len() == 4 && w[0] == 'b');
    assert(w == "commit"@ ==> w.len() == 6);
    assert(w == "_"@ ==> w.len() == 1);
}

/// The word shown for a mode: `tree`, `blob`, `commit`, or `_` when the
/// kind bits are unknown.
pub fn index_mode_name(mode: u32) -> (s: &'static str)
    ensures
        s@ == index_mode_word(mode),
{
    let k = ((mode >> 16u32) & 0xffffu32) as u16;
    if k == 4 {
        "tree"
    } else if k == 10 || k == 12 {
        "blob"
    } else if k == 16 {
        "commit"
    } else {
        "_"
    }
}

/// The listing line of an entry: its mode word, its digest as a list of
/// decimal bytes and its name, separated by spaces.
pub open spec fn ls_files_line(e: EntryModel) -> Seq<char> {
    index_mode_word(e.mode) + " "@ + ascii_chars(decimal_list(e.sha1)) + " "@ + e.name
}

/// One line of the file listing, and whether its mode was recognised.
pub struct FileListing {
    pub mode_known: bool,
    pub line: String,
}

impl GitIndexEntry {
    /// The listing line of this entry.
    pub fn ls_line(&self) -> (l: FileListing)
        ensures
            l.line@ == ls_files_line(self@),
            l.mode_known == index_mode_known(self.mode),
    {
        let mut line = index_mode_name(self.mode).to_owned();
        line.append(" ");
        let digits = decimal_list_string(self.sha1.as_slice());
        line.append(digits.as_str());
        line.append(" ");
        line.append(self.name.as_str());
        let k = ((self.mode >> 16u32) & 0xffffu32) as u16;
        FileListing { mode_known: k == 4 || k == 10 || k == 12 || k == 16, line }
    }
}

/// A name together with the entry stored under it.
pub type Record = (Seq<char>, EntryModel);

/// No name occurs twice.
pub open spec fn keys_distinct(r: Seq<Record>) -> bool {
    forall|i: int, j: int| 0 <= i < r.len() && 0 <= j < r.len() && i != j ==> r[i].0 != r[j].0
}

/// Some record carries the name `k`.
pub open spec fn has_key(r: Seq<Record>, k: Seq<char>) -> bool {
    exists|i: int| 0 <= i < r.len() && r[i].0 == k
}

/// The position of a record named `k`.
pub open spec fn key_index(r: Seq<Record>, k: Seq<char>) -> int {
    choose|i: int| 0 <= i < r.len() && r[i].0 == k
}

/// The table that the records describe: each name to its entry.
pub open spec fn records_map(r: Seq<Record>) -> Map<Seq<char>, EntryModel> {
    Map::new(|k: Seq<char>| has_key(r, k), |k: Seq<char>| r[key_index(r, k)].1)
}

/// Storing `v` under `k`: an existing record of that name is replaced in
/// place, otherwise the record goes at the end.
pub open spec fn records_insert(r: Seq<Record>, k: Seq<char>, v: EntryModel) -> Seq<Record> {
    if has_key(r, k) {
        r.update(key_index(r, k), (k, v))
    } else {
        r.push((k, v))
    }
}

/// Dropping the record named `k`, the others keeping their order.
pub open spec fn records_remove(r: Seq<Record>, k: Seq<char>) -> Seq<Record> {
    if has_key(r, k) {
        r.remove(key_index(r, k))
    } else {
        r
    }
}

/// The records after storing each of `list` in turn, starting from `r0`.
pub open spec fn insert_all(r0: Seq<Record>, list: Seq<Record>) -> Seq<Record>
    decreases list.len(),
{
    if list.len() == 0 {
        r0
    } else {
        let r = insert_all(r0, list.drop_last());
        records_insert(r, list.last().0, list.last().1)
    }
}

/// The table after storing each of `list` in turn, starting from `m0`.
pub open spec fn map_insert_all(m0: Map<Seq<char>, EntryModel>, list: Seq<Record>) -> Map<
    Seq<char>,
    EntryModel,
>
    decreases list.len(),
{
    if list.len() == 0 {
        m0
    } else {
        map_insert_all(m0, list.drop_last()).insert(list.last().0, list.last().1)
    }
}

proof fn lemma_key_index(r: Seq<Record>, k: Seq<char>, i: int)
    requires
        keys_distinct(r),
        0 <= i < r.len(),
        r[i].0 == k,
    ensures
        has_key(r, k),
        key_index(r, k) == i,
{
    assert(has_key(r, k));
}

/// Storing keeps names distinct and acts on the table as a map insert.
pub proof fn lemma_records_insert(r: Seq<Record>, k: Seq<char>, v: EntryModel)
    requires
        keys_distinct(r),
    ensures
        keys_distinct(records_insert(r, k, v)),
        records_map(records_insert(r, k, v)) == records_map(r).insert(k, v),
{
    let r2 = records_insert(r, k, v);
    let m = records_map(r).insert(k, v);
    if has_key(r, k) {
        let i = key_index(r, k);
        assert forall|j: int| 0 <= j < r.len() implies #[trigger] r2[j].0 == r[j].0 by {}
        assert forall|k2: Seq<char>| has_key(r2, k2) <==> m.dom().contains(k2) by {
            if has_key(r, k2) {
                let j = key_index(r, k2);
                assert(r2[j].0 == k2);
            }
            if has_key(r2, k2) {
                let j = key_index(r2, k2);
                assert(r[j].0 == k2);
            }
        }
        assert(keys_distinct(r2));
        assert forall|k2: Seq<char>| #[trigger] m.dom().contains(k2) implies records_map(r2)[k2]
            == m[k2] by {
            let j = key_index(r2, k2);
            if k2 == k {
                lemma_key_index(r2, k, i);
            } else {
                assert(has_key(r2, k2));
                assert(0 <= j < r2.len() && r2[j].0 == k2);
                assert(j != i);
                assert(r[j] == r2[j]);
                lemma_key_index(r, k2, j);
            }
        }
        assert(records_map(r2) =~= m);
    } else {
        assert forall|k2: Seq<char>| has_key(r2, k2) <==> m.dom().contains(k2) by {
            if has_key(r, k2) {
                let j = key_index(r, k2);
                assert(r2[j].0 == k2);
            }
            if has_key(r2, k2) && k2 != k {
                let j = key_index(r2, k2);
                assert(j < r.len());
                assert(r[j].0 == k2);
            }
            if k2 == k {
                assert(r2[r.len() as int].0 == k);
            }
        }
        assert(keys_distinct(r2));
        assert forall|k2: Seq<char>| #[trigger] m.dom().contains(k2) implies records_map(r2)[k2]
            == m[k2] by {
            if k2 == k {
                lemma_key_index(r2, k, r.len() as int);
            } else {
                let j = key_index(r, k2);
                assert(r2[j].0 == k2);
                lemma_key_index(r2, k2, j);
            }
        }
        assert(records_map(r2) =~= m);
    }
}

/// Dropping keeps names distinct and acts on the table as a map removal.
pub proof fn lemma_records_remove(r: Seq<Record>, k: Seq<char>)
    requires
        keys_distinct(r),
    ensures
        keys_distinct(records_remove(r, k)),
        records_map(records_remove(r, k)) == records_map(r).remove(k),
{
    let r2 = records_remove(r, k);
    let m = records_map(r).remove(k);
    if has_key(r, k) {
        let i = key_index(r, k);
        assert forall|a: int, b: int|
            0 <= a < r2.len() && 0 <= b < r2.len() && a != b implies r2[a].0 != r2[b].0 by {
            let a1 = if a < i { a } else { a + 1 };
            let b1 = if b < i { b } else { b + 1 };
            assert(r2[a] == r[a1]);
            assert(r2[b] == r[b1]);
        }
        assert forall|k2: Seq<char>| has_key(r2, k2) <==> m.dom().contains(k2) by {
            if has_key(r2, k2) {
                let j = key_index(r2, k2);
                let j1 = if j < i { j } else { j + 1 };
                assert(r[j1].0 == k2);
                assert(j1 != i);
            }
            if m.dom().contains(k2) {
                let j = key_index(r, k2);
                assert(j != i);
                let j2 = if j < i { j } else { j - 1 };
                assert(r2[j2].0 == k2);
            }
        }
        assert forall|k2: Seq<char>| #[trigger] m.dom().contains(k2) implies records_map(r2)[k2]
            == m[k2] by {
            let j = key_index(r, k2);
            let j2 = if j < i { j } else { j - 1 };
            assert(r2[j2] == r[j]);
            lemma_key_index(r2, k2, j2);
        }
        assert(records_map(r2) =~= m);
    } else {
        assert(records_map(r2) =~= m);
    }
}

/// Storing a list of records one after the other keeps names distinct and
/// builds the table that storing them into a map would build.
pub proof fn lemma_insert_all(r0: Seq<Record>, list: Seq<Record>)
    requires
        keys_distinct(r0),
    ensures
        keys_distinct(insert_all(r0, list)),
        records_map(insert_all(r0, list)) == map_insert_all(records_map(r0), list),
    decreases list.len(),
{
    if list.len() > 0 {
        lemma_insert_all(r0, list.drop_last());
        lemma_records_insert(insert_all(r0, list.drop_last()), list.last().0, list.last().1);
    }
}

/// The bytes written for one record of the index: the name's length, the
/// name, then the entry.
pub open spec fn record_bytes(r: Record) -> Seq<u8> {
    be16(name_len_field(r.0)) + encode_utf8(r.0) + entry_bytes(r.1)
}

/// A record begins with the number of bytes of its name, as a big-endian
/// base-256 number, and the name's bytes follow it.
pub proof fn lemma_record_length_field(r: Record)
    requires
        encode_utf8(r.0).len() < 65536,
    ensures
        record_bytes(r).len() >= 2 + encode_utf8(r.0).len(),
        record_bytes(r)[0] as int * 256 + record_bytes(r)[1] as int == encode_utf8(r.0).len(),
        record_bytes(r).subrange(2, 2 + encode_utf8(r.0).len() as int) == encode_utf8(r.0),
{
    let nb = encode_utf8(r.0);
    let x = name_len_field(r.0);
    assert(x as int == nb.len());
    lemma_be16_value(x);
    let d = record_bytes(r);
    assert(d[0] == be16(x)[0] && d[1] == be16(x)[1]);
    assert(d.subrange(2, 2 + nb.len() as int) =~= nb);
}

/// The bytes written for an index: its records one after the other.
pub open spec fn index_bytes(r: Seq<Record>) -> Seq<u8>
    decreases r.len(),
{
    if r.len() == 0 {
        seq![]
    } else {
        index_bytes(r.drop_last()) + record_bytes(r.last())
    }
}

/// Reading an index: while at least two bytes remain, a name length, the
/// name and an entry (as `parse_entry` reads it); fewer than two bytes end
/// the index. `None` when the input ends inside a record.
pub open spec fn parse_records(d: Seq<u8>) -> Option<Seq<Record>>
    decreases d.len(),
{
    if d.len() < 2 {
        Some(seq![])
    } else {
        let nl = u16_at(d, 0) as int;
        if d.len() < 2 + nl {
            None
        } else {
            let rest = d.subrange(2 + nl, d.len() as int);
            match parse_entry(rest) {
                None => None,
                Some((e, n)) => match parse_records(rest.subrange(n as int, rest.len() as int)) {
                    None => None,
                    Some(tail) => Some(seq![(decode_lossy(d.subrange(2, 2 + nl)), e)] + tail),
                },
            }
        }
    }
}


/// After storing `v` under `k` the table holds `v` at `k`; removing `k`
/// afterwards leaves the table as it was, without `k` (exactly as it was
/// when `k` was absent); removing `k` again finds nothing.
pub proof fn lemma_store_then_remove(r: Seq<Record>, k: Seq<char>, v: EntryModel)
    requires
        keys_distinct(r),
    ensures
        records_map(records_insert(r, k, v)).contains_key(k),
        records_map(records_insert(r, k, v))[k] == v,
        records_map(records_remove(records_insert(r, k, v), k)) == records_map(r).remove(k),
        !records_map(records_remove(records_insert(r, k, v), k)).contains_key(k),
        !records_map(r).contains_key(k) ==> records_map(records_remove(records_insert(r, k, v), k))
            == records_map(r),
{
    lemma_records_insert(r, k, v);
    lemma_records_remove(records_insert(r, k, v), k);
    assert(records_map(r).insert(k, v).remove(k) =~= records_map(r).remove(k));
    if !records_map(r).contains_key(k) {
        assert(records_map(r).remove(k) =~= records_map(r));
    }
}

/// The bytes the index reader takes for one record: the name's length, the
/// name, the two bytes `pad` that the entry reader skips, then the entry.
pub open spec fn readable_record_bytes(r: Record, pad: (u8, u8)) -> Seq<u8> {
    be16(name_len_field(r.0)) + encode_utf8(r.0) + seq![pad.0, pad.1] + entry_bytes(r.1)
}

/// Records laid out for the index reader, first record first, the skipped
/// bytes of the `i`-th record taken from `pads[i]`.
pub open spec fn readable_index_bytes(list: Seq<Record>, pads: Seq<(u8, u8)>) -> Seq<u8>
    decreases list.len(),
{
    if list.len() == 0 {
        seq![]
    } else {
        readable_record_bytes(list[0], pads[0]) + readable_index_bytes(
            list.drop_first(),
            pads.drop_first(),
        )
    }
}

/// A record whose name and entry name fit their 16-bit length fields.
pub open spec fn record_fits(r: Record) -> bool {
    &&& encode_utf8(r.0).len() < 65536
    &&& encode_utf8(r.1.name).len() < 65536
    &&& r.1.sha1.len() == 20
}

/// One laid-out record in front of `tb` is read, then reading goes on in `tb`.
proof fn lemma_parse_records_cons(r: Record, pad: (u8, u8), tb: Seq<u8>)
    requires
        record_fits(r),
    ensures
        parse_records(readable_record_bytes(r, pad) + tb) == match parse_records(tb) {
            None => None,
            Some(t) => Some(seq![r] + t),
        },
{
    let nb = encode_utf8(r.0);
    let eb = entry_bytes(r.1);
    let nl = name_len_field(r.0);
    lemma_entry_roundtrip(r.1, pad.0, pad.1, tb);
    let d = readable_record_bytes(r, pad) + tb;
    assert(nl as int == nb.len());
    assert(d.subrange(0, 2) =~= be16(nl));
    lemma_be16_roundtrip(nl);
    assert(u16_at(d, 0) == u16_at(d.subrange(0, 2), 0));
    let rest = d.subrange(2 + nb.len() as int, d.len() as int);
    assert(rest =~= seq![pad.0, pad.1] + eb + tb);
    let n = 66 + encode_utf8(r.1.name).len();
    assert(rest.subrange(n as int, rest.len() as int) =~= tb);
    assert(d.subrange(2, 2 + nb.len() as int) =~= nb);
    encode_utf8_valid_utf8(r.0);
    encode_utf8_decode_utf8(r.0);
    assert(decode_lossy(nb) == r.0);
}

/// The index reader gives back every record laid out for it, in order,
/// whatever the two skipped bytes of each record and whatever fewer than
/// two bytes follow the last record.
pub proof fn lemma_index_read_back(list: Seq<Record>, pads: Seq<(u8, u8)>, tail: Seq<u8>)
    requires
        forall|i: int| 0 <= i < list.len() ==> record_fits(#[trigger] list[i]),
        pads.len() >= list.len(),
        tail.len() < 2,
    ensures
        parse_records(readable_index_bytes(list, pads) + tail) == Some(list),
    decreases list.len(),
{
    if list.len() == 0 {
        assert(list =~= Seq::<Record>::empty());
        assert(readable_index_bytes(list, pads) + tail =~= tail);
    } else {
        let rest = list.drop_first();
        assert forall|i: int| 0 <= i < rest.len() implies record_fits(#[trigger] rest[i]) by {
            assert(rest[i] == list[i + 1]);
        }
        assert(record_fits(list[0]));
        lemma_index_read_back(rest, pads.drop_first(), tail);
        let tb = readable_index_bytes(rest, pads.drop_first()) + tail;
        lemma_parse_records_cons(list[0], pads[0], tb);
        assert(readable_index_bytes(list, pads) + tail =~= readable_record_bytes(list[0], pads[0])
            + tb);
        assert(seq![list[0]] + rest =~= list);
    }
}

/// `whole` is the records of `done` followed by those of `tail`, or there
/// are none where `tail` has none.
pub open spec fn prefix_then(whole: Option<Seq<Record>>, done: Seq<Record>, tail: Option<Seq<Record>>) -> bool {
    match tail {
        None => whole is None,
        Some(t) => whole == Some(done + t),
    }
}

proof fn lemma_prefix_then(d: Seq<u8>, done: Seq<Record>, s: Seq<u8>)
    requires
        done == Seq::<Record>::empty(),
        s == d,
    ensures
        prefix_then(parse_records(d), done, parse_records(s)),
{
    match parse_records(s) {
        None => {},
        Some(t) => {
            assert(done + t =~= t);
        },
    }
}

proof fn lemma_prefix_then_push(
    whole: Option<Seq<Record>>,
    done: Seq<Record>,
    rec: Record,
    tail: Option<Seq<Record>>,
)
    requires
        prefix_then(
            whole,
            done,
            match tail {
                None => None,
                Some(t) => Some(seq![rec] + t),
            },
        ),
    ensures
        prefix_then(whole, done.push(rec), tail),
{
    match tail {
        None => {},
        Some(t) => {
            assert(done + (seq![rec] + t) =~= done.push(rec) + t);
        },
    }
}

proof fn lemma_parse_records_short_name(d: Seq<u8>, pos: int)
    requires
        0 <= pos,
        pos + 2 <= d.len(),
        d.len() - pos - 2 < u16_at(d, pos),
    ensures
        parse_records(d.subrange(pos, d.len() as int)) is None,
{
    let s = d.subrange(pos, d.len() as int);
    assert(u16_at(s, 0) == u16_at(d, pos));
}

proof fn lemma_parse_records_bad_entry(d: Seq<u8>, pos: int)
    requires
        0 <= pos,
        pos + 2 <= d.len(),
        pos + 2 + u16_at(d, pos) <= d.len(),
        parse_entry(d.subrange(pos + 2 + u16_at(d, pos), d.len() as int)) is None,
    ensures
        parse_records(d.subrange(pos, d.len() as int)) is None,
{
    let s = d.subrange(pos, d.len() as int);
    let nl = u16_at(d, pos) as int;
    assert(u16_at(s, 0) == u16_at(d, pos));
    assert(s.subrange(2 + nl, s.len() as int) =~= d.subrange(pos + 2 + nl, d.len() as int));
}

proof fn lemma_parse_records_step(d: Seq<u8>, pos: int, n: int)
    requires
        0 <= pos,
        pos + 2 <= d.len(),
        pos + 2 + u16_at(d, pos) <= d.len(),
        parse_entry(d.subrange(pos + 2 + u16_at(d, pos), d.len() as int)) matches Some((_, k))
            && k == n,
    ensures
        pos + 2 + u16_at(d, pos) + n <= d.len(),
        parse_records(d.subrange(pos, d.len() as int)) == match parse_records(
            d.subrange(pos + 2 + u16_at(d, pos) + n, d.len() as int),
        ) {
            None => None,
            Some(t) => Some(
                seq![
                    (
                        decode_lossy(d.subrange(pos + 2, pos + 2 + u16_at(d, pos))),
                        parse_entry(d.subrange(pos + 2 + u16_at(d, pos), d.len() as int)).unwrap().0,
                    ),
                ] + t,
            ),
        },
{
    let s = d.subrange(pos, d.len() as int);
    let nl = u16_at(d, pos) as int;
    assert(u16_at(s, 0) == u16_at(d, pos));
    let rest = s.subrange(2 + nl, s.len() as int);
    assert(rest =~= d.subrange(pos + 2 + nl, d.len() as int));
    assert(rest.subrange(n, rest.len() as int) =~= d.subrange(pos + 2 + nl + n, d.len() as int));
    assert(s.subrange(2, 2 + nl) =~= d.subrange(pos + 2, pos + 2 + nl));
}

proof fn lemma_parse_records_end(d: Seq<u8>, pos: int)
    requires
        0 <= pos <= d.len(),
        d.len() - pos < 2,
    ensures
        parse_records(d.subrange(pos, d.len() as int)) == Some(Seq::<Record>::empty()),
{
}

/// The records that stored pairs of name and entry stand for.
pub open spec fn records_of(v: Seq<(String, GitIndexEntry)>) -> Seq<Record> {
    Seq::new(v.len(), |i: int| (v[i].0@, v[i].1@))
}

/// The index of tracked files, keyed by name.
pub struct GitIndex {
    entries: Vec<(String, GitIndexEntry)>,
}

impl GitIndex {
    /// The records held, in the order they are written.
    pub closed spec fn records(&self) -> Seq<Record> {
        records_of(self.entries@)
    }

    #[verifier::type_invariant]
    spec fn names_distinct(&self) -> bool {
        keys_distinct(self.records())
    }
}

impl View for GitIndex {
    type V = Map<Seq<char>, EntryModel>;

    open spec fn view(&self) -> Map<Seq<char>, EntryModel> {
        records_map(self.records())
    }
}

impl GitIndex {
    /// An empty index.
    pub fn new() -> (idx: Self)
        ensures
            idx.records() == Seq::<Record>::empty(),
            idx@ == Map::<Seq<char>, EntryModel>::empty(),
            keys_distinct(idx.records()),
    {
        let idx = GitIndex { entries: Vec::new() };
        assert(idx.records() =~= Seq::<Record>::empty());
        assert(idx@ =~= Map::<Seq<char>, EntryModel>::empty());
        idx
    }

    /// Stores `entry` under `name`, replacing what was stored under it.
    #[verifier::loop_isolation(false)]
    pub fn add_entry(&mut self, name: String, entry: GitIndexEntry)
        ensures
            final(self).records() == records_insert(old(self).records(), name@, entry@),
            final(self)@ == old(self)@.insert(name@, entry@),
            keys_distinct(final(self).records()),
    {
        proof {
            use_type_invariant(&*self);
            lemma_records_insert(self.records(), name@, entry@);
        }
        let ghost r = self.records();
        let mut entries: Vec<(String, GitIndexEntry)> = Vec::new();
        std::mem::swap(&mut entries, &mut self.entries);
        assert(records_of(entries@) == r);
        let mut i: usize = 0;
        while i < entries.len()
            invariant
                i <= entries.len(),
                records_of(entries@) == r,
                keys_distinct(r),
                forall|j: int| 0 <= j < i ==> r[j].0 != name@,
            decreases entries.len() - i,
        {
            if entries[i].0 == name {
                proof {
                    assert(r[i as int].0 == name@);
                    lemma_key_index(r, name@, i as int);
                }
                let ghost v = (name@, entry@);
                entries.set(i, (name, entry));
                assert(records_of(entries@) =~= r.update(i as int, v));
                self.entries = entries;
                assert(self.records() =~= records_insert(r, name@, entry@));
                return;
            }
            i = i + 1;
        }
        proof {
            assert(!has_key(r, name@));
        }
        let ghost v = (name@, entry@);
        entries.push((name, entry));
        assert(records_of(entries@) =~= r.push(v));
        self.entries = entries;
        assert(self.records() =~= records_insert(r, name@, entry@));
    }

    /// Appends the bytes of every record, in the order the records are held.
    pub fn serialize(&self, out: &mut Vec<u8>)
        ensures
            final(out)@ == old(out)@ + index_bytes(self.records()),
    {
        let ghost start = out@;
        let ghost r = self.records();
        let mut i: usize = 0;
        while i < self.entries.len()
            invariant
                i <= self.entries.len(),
                r == records_of(self.entries@),
                out@ == start + index_bytes(r.subrange(0, i as int)),
            decreases self.entries.len() - i,
        {
            let pair = &self.entries[i];
            let name_bytes = pair.0.as_str().as_bytes();
            push_u16_be(out, (name_bytes.len() % 65536) as u16);
            push_bytes(out, name_bytes);
            pair.1.serialize(out);
            proof {
                let post = r.subrange(0, i + 1);
                assert(post.drop_last() =~= r.subrange(0, i as int));
                assert(post.last() == r[i as int]);
                assert(out@ =~= start + index_bytes(post));
            }
            i = i + 1;
        }
        assert(r.subrange(0, r.len() as int) =~= r);
    }

    /// Reads an index from `data`: records follow one another until fewer
    /// than two bytes remain, each stored in turn as `add_entry` stores it.
    pub fn deserialize(data: &[u8]) -> (res: Result<GitIndex, DecodeError>)
        ensures
            parse_records(data@) is None <==> res is Err,
            res matches Ok(idx) ==> {
                &&& idx.records() == insert_all(seq![], parse_records(data@).unwrap())
                &&& idx@ == map_insert_all(Map::empty(), parse_records(data@).unwrap())
                &&& keys_distinct(idx.records())
            },
    {
        let mut idx = GitIndex::new();
        let mut pos: usize = 0;
        let ghost mut done: Seq<Record> = seq![];
        proof {
            assert(data@.subrange(0, data@.len() as int) =~= data@);
            lemma_prefix_then(data@, seq![], data@);
        }
        while data.len() - pos >= 2
            invariant
                pos <= data.len(),
                prefix_then(
                    parse_records(data@),
                    done,
                    parse_records(data@.subrange(pos as int, data@.len() as int)),
                ),
                idx.records() == insert_all(seq![], done),
                keys_distinct(idx.records()),
            decreases data.len() - pos,
        {
            let name_len = read_u16_be(data, pos) as usize;
            if data.len() - pos - 2 < name_len {
                proof {
                    lemma_parse_records_short_name(data@, pos as int);
                }
                return Err(DecodeError::UnexpectedEof);
            }
            let start = pos + 2;
            let name = string_from_utf8_lossy(&data[start..start + name_len]);
            let (_, rest) = data.split_at(start + name_len);
            match GitIndexEntry::deserialize(rest) {
                Err(e) => {
                    proof {
                        lemma_parse_records_bad_entry(data@, pos as int);
                    }
                    return Err(e);
                },
                Ok((entry, n)) => {
                    let ghost rec = (name@, entry@);
                    proof {
                        lemma_parse_records_step(data@, pos as int, n as int);
                        lemma_prefix_then_push(
                            parse_records(data@),
                            done,
                            rec,
                            parse_records(data@.subrange(start + name_len + n, data@.len() as int)),
                        );
                        assert(done.push(rec).drop_last() =~= done);
                        done = done.push(rec);
                    }
                    idx.add_entry(name, entry);
                    pos = start + name_len + n;
                },
            }
        }
        proof {
            lemma_parse_records_end(data@, pos as int);
            assert(done + Seq::<Record>::empty() =~= done);
            lemma_insert_all(seq![], done);
            assert(records_map(Seq::<Record>::empty()) =~= Map::<Seq<char>, EntryModel>::empty());
        }
        Ok(idx)
    }

    /// The listing line of every entry, in the order the records are held.
    pub fn ls_files(&self) -> (lines: Vec<FileListing>)
        ensures
            lines.len() == self.records().len(),
            forall|i: int|
                0 <= i < lines.len() ==> {
                    &&& #[trigger] lines[i].line@ == ls_files_line(self.records()[i].1)
                    &&& lines[i].mode_known == index_mode_known(self.records()[i].1.mode)
                },
    {
        let mut lines: Vec<FileListing> = Vec::new();
        let mut i: usize = 0;
        while i < self.entries.len()
            invariant
                i <= self.entries.len(),
                lines.len() == i,
                forall|j: int|
                    0 <= j < i ==> {
                        &&& #[trigger] lines[j].line@ == ls_files_line(self.records()[j].1)
                        &&& lines[j].mode_known == index_mode_known(self.records()[j].1.mode)
                    },
            decreases self.entries.len() - i,
        {
            let l = self.entries[i].1.ls_line();
            let ghost before = lines@;
            lines.push(l);
            assert(self.records()[i as int].1 == self.entries@[i as int].1@);
            assert(forall|j: int| 0 <= j < i ==> lines@[j] == before[j]);
            assert(lines@[i as int] == l);
            i = i + 1;
        }
        lines
    }

    /// Removes and returns the entry stored under `name`, if any.
    #[verifier::loop_isolation(false)]
    pub fn remove_entry(&mut self, name: &str) -> (res: Option<GitIndexEntry>)
        ensures
            res is Some <==> old(self)@.contains_key(name@),
            res matches Some(e) ==> e@ == old(self)@[name@],
            final(self).records() == records_remove(old(self).records(), name@),
            final(self)@ == old(self)@.remove(name@),
            keys_distinct(final(self).records()),
    {
        proof {
            use_type_invariant(&*self);
            lemma_records_remove(self.records(), name@);
        }
        let ghost r = self.records();
        let key = name.to_owned();
        let mut entries: Vec<(String, GitIndexEntry)> = Vec::new();
        std::mem::swap(&mut entries, &mut self.entries);
        assert(records_of(entries@) == r);
        let mut i: usize = 0;
        while i < entries.len()
            invariant
                i <= entries.len(),
                records_of(entries@) == r,
                keys_distinct(r),
                key@ == name@,
                forall|j: int| 0 <= j < i ==> r[j].0 != name@,
            decreases entries.len() - i,
        {
            if entries[i].0 == key {
                proof {
                    assert(r[i as int].0 == name@);
                    lemma_key_index(r, name@, i as int);
                }
                assert(records_map(r).contains_key(name@));
                assert(records_map(r)[name@] == r[i as int].1);
                let (_, e) = entries.remove(i);
                assert(records_of(entries@) =~= r.remove(i as int));
                self.entries = entries;
                assert(self.records() =~= records_remove(r, name@));
                return Some(e);
            }
            i = i + 1;
        }
        proof {
            assert(!has_key(r, name@));
            assert(!records_map(r).contains_key(name@));
        }
        self.entries = entries;
        None
    }
}

} // verus!
