//! Objects: naming content by its SHA-1 digest, where objects are stored,
//! and the binary layout of tree objects.

use sha1::{Digest, Sha1};
use vstd::prelude::*;
use vstd::utf8::*;
use vstd::string::StringSliceAdditionalSpecFns;
use crate::wire::{push_bytes, read_array};
use crate::text::{ascii_chars, decimal_list, decimal_list_string, hex_lower, hex_lower_string, decode_lossy, string_from_utf8_lossy};
use crate::index::DecodeError;

verus! {

/// The SHA-1 digest of a byte sequence.
pub uninterp spec fn sha1_digest(data: Seq<u8>) -> Seq<u8>;

/// Runs the `sha1` crate's hasher (`Sha1::new`, `update`, `finalize`) over
/// `data`. Claimed: the result is the digest of `data`, which depends on the
/// bytes alone, and it is 20 bytes long (the hasher's output size).
#[verifier::external_body]
fn sha1_of(data: &[u8]) -> (d: Vec<u8>)
    ensures
        d@ == sha1_digest(data@),
        d@.len() == 20,
{
    let mut hasher = Sha1::new();
    hasher.update(data);
    hasher.finalize().to_vec()
}

/// The name of an object with content `content`: its SHA-1 digest in
/// lowercase hexadecimal.
pub fn hash_object(content: &[u8]) -> (name: String)
    ensures
        name@ == ascii_chars(hex_lower(sha1_digest(content@))),
        name@.len() == 40,
{
    let digest = sha1_of(content);
    proof {
        crate::text::lemma_hex_lower_shape(digest@);
    }
    hex_lower_string(digest.as_slice())
}

/// Where objects are kept.
pub open spec fn objects_root() -> Seq<char> {
    "sgit/objects/"@
}

/// The directory of the object named `hash_hex`: the objects root followed
/// by the name's first two bytes.
pub fn object_dir(hash_hex: &str) -> (dir: String)
    requires
        is_char_boundary(hash_hex.spec_bytes(), 2),
    ensures
        dir@ == objects_root() + decode_utf8(hash_hex.spec_bytes().subrange(0, 2)),
{
    let (head, _) = hash_hex.split_at(2);
    proof {
        encode_utf8_decode_utf8(head@);
    }
    let mut dir = "sgit/objects/".to_owned();
    dir.append(head);
    dir
}

/// The file of the object named `hash_hex`: its directory, a slash and the
/// rest of the name.
pub fn object_file(hash_hex: &str) -> (file: String)
    requires
        is_char_boundary(hash_hex.spec_bytes(), 2),
    ensures
        file@ == objects_root() + decode_utf8(hash_hex.spec_bytes().subrange(0, 2)) + "/"@
            + decode_utf8(hash_hex.spec_bytes().subrange(2, hash_hex.spec_bytes().len() as int)),
{
    let (head, tail) = hash_hex.split_at(2);
    proof {
        encode_utf8_decode_utf8(head@);
        encode_utf8_decode_utf8(tail@);
    }
    let mut file = "sgit/objects/".to_owned();
    file.append(head);
    file.append("/");
    file.append(tail);
    file
}

/// One entry of a tree object.
#[derive(Debug, Clone, PartialEq, Eq)]
pub struct TreeEntry {
    pub mode: [u8; 6],
    pub path: String,
    pub sha1: [u8; 20],
}

/// The value of a tree entry.
#[verifier::ext_equal]
pub struct TreeEntryModel {
    pub mode: Seq<u8>,
    pub path: Seq<char>,
    pub sha1: Seq<u8>,
}

impl View for TreeEntry {
    type V = TreeEntryModel;

    open spec fn view(&self) -> TreeEntryModel {
        TreeEntryModel { mode: self.mode@, path: self.path@, sha1: self.sha1@ }
    }
}

/// The bytes written for a tree entry: the mode, a space, the path, a zero
/// byte and the digest.
pub open spec fn tree_entry_bytes(e: TreeEntryModel) -> Seq<u8> {
    e.mode + seq![32u8] + encode_utf8(e.path) + seq![0u8] + e.sha1
}

/// The position of the first zero byte of `d` at or after `i`, or -1.
pub open spec fn first_zero_from(d: Seq<u8>, i: int) -> int
    decreases d.len() - i,
{
    if i < 0 || i >= d.len() {
        -1
    } else if d[i] == 0 {
        i
    } else {
        first_zero_from(d, i + 1)
    }
}

/// One entry read from the front of `d`, in the layout `tree_entry_bytes`
/// writes: six mode bytes, the separator, the path up to the first zero
/// byte after it, then twenty digest bytes. `None` when the input ends
/// first; otherwise the entry and the number of bytes it took.
pub open spec fn parse_tree_item(d: Seq<u8>) -> Option<(TreeEntryModel, nat)> {
    if d.len() < 7 {
        None
    } else {
        let z = first_zero_from(d, 7);
        if z < 0 || d.len() < z + 21 {
            None
        } else {
            Some(
                (
                    TreeEntryModel {
                        mode: d.subrange(0, 6),
                        path: decode_lossy(d.subrange(7, z)),
                        sha1: d.subrange(z + 1, z + 21),
                    },
                    (z + 21) as nat,
                ),
            )
        }
    }
}

/// A single entry read from an input: `None` when it has fewer than 29
/// bytes or does not hold a whole entry; otherwise the entry at its front.
pub open spec fn parse_tree_entry(d: Seq<u8>) -> Option<TreeEntryModel> {
    if d.len() < 29 {
        None
    } else {
        match parse_tree_item(d) {
            None => None,
            Some((e, _)) => Some(e),
        }
    }
}

/// A tree read from `d`: an entry, then further entries one after the
/// other until the input ends. `None` for empty input, as for any input
/// that ends inside an entry.
pub open spec fn parse_tree(d: Seq<u8>) -> Option<Seq<TreeEntryModel>>
    decreases d.len(),
{
    match parse_tree_item(d) {
        None => None,
        Some((e, n)) => if n >= d.len() {
            Some(seq![e])
        } else {
            match parse_tree(d.subrange(n as int, d.len() as int)) {
                None => None,
                Some(t) => Some(seq![e] + t),
            }
        },
    }
}

/// A tree object: its entries in order.
#[derive(Debug, Clone, PartialEq, Eq)]
pub struct Tree {
    pub entries: Vec<TreeEntry>,
}

/// The values of a sequence of tree entries.
pub open spec fn tree_models(v: Seq<TreeEntry>) -> Seq<TreeEntryModel> {
    Seq::new(v.len(), |i: int| v[i]@)
}

/// The bytes written for a tree: its entries' bytes one after the other.
pub open spec fn tree_bytes(es: Seq<TreeEntryModel>) -> Seq<u8>
    decreases es.len(),
{
    if es.len() == 0 {
        seq![]
    } else {
        tree_bytes(es.drop_last()) + tree_entry_bytes(es.last())
    }
}

/// `whole` is the entries of `done` followed by those of `tail`, or there
/// are none where `tail` has none.
pub open spec fn tree_prefix_then(
    whole: Option<Seq<TreeEntryModel>>,
    done: Seq<TreeEntryModel>,
    tail: Option<Seq<TreeEntryModel>>,
) -> bool {
    match tail {
        None => whole is None,
        Some(t) => whole == Some(done + t),
    }
}

proof fn lemma_first_zero_found(d: Seq<u8>, i: int, z: int)
    requires
        0 <= i <= z < d.len(),
        forall|j: int| i <= j < z ==> d[j] != 0,
        d[z] == 0,
    ensures
        first_zero_from(d, i) == z,
    decreases z - i,
{
    if i < z {
        lemma_first_zero_found(d, i + 1, z);
    }
}

proof fn lemma_first_zero_none(d: Seq<u8>, i: int)
    requires
        0 <= i <= d.len(),
        forall|j: int| i <= j < d.len() ==> d[j] != 0,
    ensures
        first_zero_from(d, i) == -1,
    decreases d.len() - i,
{
    if i < d.len() {
        lemma_first_zero_none(d, i + 1);
    }
}

proof fn lemma_parse_tree_step(d: Seq<u8>, pos: int)
    requires
        0 <= pos < d.len(),
        parse_tree_item(d.subrange(pos, d.len() as int)) matches Some((_, n)) && pos + n < d.len(),
    ensures
        parse_tree(d.subrange(pos, d.len() as int)) == match parse_tree(
            d.subrange(pos + parse_tree_item(d.subrange(pos, d.len() as int)).unwrap().1, d.len() as int),
        ) {
            None => None,
            Some(t) => Some(seq![parse_tree_item(d.subrange(pos, d.len() as int)).unwrap().0] + t),
        },
{
    let s = d.subrange(pos, d.len() as int);
    let n = parse_tree_item(s).unwrap().1;
    assert(s.subrange(n as int, s.len() as int) =~= d.subrange(pos + n, d.len() as int));
}

/// Every byte is nonzero.
pub open spec fn no_zero_byte(b: Seq<u8>) -> bool {
    forall|i: int| 0 <= i < b.len() ==> #[trigger] b[i] != 0
}

/// A tree entry with a six-byte mode and a twenty-byte digest.
pub open spec fn tree_entry_shaped(e: TreeEntryModel) -> bool {
    e.mode.len() == 6 && e.sha1.len() == 20
}

/// The bytes written for an entry, whatever follows them, are read as that
/// entry, provided its path's bytes hold no zero byte.
pub proof fn lemma_tree_item_of_entry(e: TreeEntryModel, rest: Seq<u8>)
    requires
        tree_entry_shaped(e),
        no_zero_byte(encode_utf8(e.path)),
    ensures
        tree_entry_bytes(e).len() == 28 + encode_utf8(e.path).len(),
        parse_tree_item(tree_entry_bytes(e) + rest) == Some(
            (e, (28 + encode_utf8(e.path).len()) as nat),
        ),
{
    let pb = encode_utf8(e.path);
    let d = tree_entry_bytes(e) + rest;
    let z: int = 7 + pb.len() as int;
    assert forall|j: int| 7 <= j < z implies d[j] != 0 by {
        assert(d[j] == pb[j - 7]);
    }
    assert(d[z] == 0u8);
    lemma_first_zero_found(d, 7, z);
    assert(d.subrange(7, z) =~= pb);
    encode_utf8_valid_utf8(e.path);
    encode_utf8_decode_utf8(e.path);
    assert(d.subrange(0, 6) =~= e.mode);
    assert(d.subrange(z + 1, z + 21) =~= e.sha1);
    assert(parse_tree_item(d).unwrap().0 =~= e);
}

/// A tree entry is read back from its own bytes when its path is not empty
/// and the path's bytes hold no zero byte.
pub proof fn lemma_tree_entry_roundtrip(e: TreeEntryModel)
    requires
        tree_entry_shaped(e),
        encode_utf8(e.path).len() > 0,
        no_zero_byte(encode_utf8(e.path)),
    ensures
        parse_tree_entry(tree_entry_bytes(e)) == Some(e),
{
    lemma_tree_item_of_entry(e, seq![]);
    assert(tree_entry_bytes(e) + Seq::<u8>::empty() =~= tree_entry_bytes(e));
}

/// An entry's bytes are read back as that entry whatever follows them,
/// when its path is not empty and the path's bytes hold no zero byte.
pub proof fn lemma_tree_entry_read_with_rest(e: TreeEntryModel, rest: Seq<u8>)
    requires
        tree_entry_shaped(e),
        encode_utf8(e.path).len() > 0,
        no_zero_byte(encode_utf8(e.path)),
    ensures
        parse_tree_entry(tree_entry_bytes(e) + rest) == Some(e),
{
    lemma_tree_item_of_entry(e, rest);
}

proof fn lemma_tree_bytes_first(es: Seq<TreeEntryModel>)
    requires
        es.len() > 0,
    ensures
        tree_bytes(es) == tree_entry_bytes(es[0]) + tree_bytes(es.drop_first()),
    decreases es.len(),
{
    if es.len() == 1 {
        assert(es.drop_last() =~= Seq::<TreeEntryModel>::empty());
        assert(es.drop_first() =~= Seq::<TreeEntryModel>::empty());
        assert(tree_bytes(es.drop_last()) == Seq::<u8>::empty());
        assert(tree_bytes(es.drop_first()) == Seq::<u8>::empty());
        assert(es.last() == es[0]);
        assert(tree_bytes(es) =~= tree_entry_bytes(es[0]) + tree_bytes(es.drop_first()));
    } else {
        lemma_tree_bytes_first(es.drop_last());
        assert(es.drop_last().drop_first() =~= es.drop_first().drop_last());
        assert(es.drop_first().last() == es.last());
        assert(es.drop_last()[0] == es[0]);
        assert(tree_bytes(es) =~= tree_entry_bytes(es[0]) + tree_bytes(es.drop_first()));
    }
}

/// A tree with at least one entry is read back from the bytes written for
/// it, entry for entry, provided no path's bytes hold a zero byte.
pub proof fn lemma_tree_read_back(es: Seq<TreeEntryModel>)
    requires
        es.len() >= 1,
        forall|i: int|
            0 <= i < es.len() ==> tree_entry_shaped(#[trigger] es[i]) && no_zero_byte(
                encode_utf8(es[i].path),
            ),
    ensures
        parse_tree(tree_bytes(es)) == Some(es),
    decreases es.len(),
{
    let e = es[0];
    let tail = es.drop_first();
    assert(tree_entry_shaped(e) && no_zero_byte(encode_utf8(e.path)));
    lemma_tree_bytes_first(es);
    let rest = tree_bytes(tail);
    let d = tree_entry_bytes(e) + rest;
    lemma_tree_item_of_entry(e, rest);
    let n: int = 28 + encode_utf8(e.path).len() as int;
    if es.len() == 1 {
        assert(tail =~= Seq::<TreeEntryModel>::empty());
        assert(rest == Seq::<u8>::empty());
        assert(es =~= seq![e]);
    } else {
        assert forall|i: int| 0 <= i < tail.len() implies tree_entry_shaped(#[trigger] tail[i])
            && no_zero_byte(encode_utf8(tail[i].path)) by {
            assert(tail[i] == es[i + 1]);
        }
        lemma_tree_read_back(tail);
        lemma_tree_bytes_first(tail);
        assert(tail[0] == es[1]);
        lemma_tree_item_of_entry(tail[0], tree_bytes(tail.drop_first()));
        assert(rest.len() > 0);
        assert(d.subrange(n, d.len() as int) =~= rest);
        assert(seq![e] + tail =~= es);
    }
}

impl TreeEntry {
    /// The bytes of this entry.
    pub fn serialize(&self) -> (bytes: Vec<u8>)
        ensures
            bytes@ == tree_entry_bytes(self@),
    {
        let mut buffer: Vec<u8> = Vec::new();
        push_bytes(&mut buffer, self.mode.as_slice());
        buffer.push(32u8);
        push_bytes(&mut buffer, self.path.as_str().as_bytes());
        buffer.push(0u8);
        push_bytes(&mut buffer, self.sha1.as_slice());
        assert(buffer@ =~= tree_entry_bytes(self@));
        buffer
    }

    /// Reads one entry from the front of `data[pos..]`.
    fn read_item(data: &[u8], pos: usize) -> (res: Result<(TreeEntry, usize), DecodeError>)
        requires
            pos <= data.len(),
        ensures
            parse_tree_item(data@.subrange(pos as int, data@.len() as int)) is None <==> res is Err,
            res matches Ok((e, n)) ==> parse_tree_item(data@.subrange(pos as int, data@.len() as int))
                == Some((e@, n as nat)),
    {
        let ghost s = data@.subrange(pos as int, data@.len() as int);
        if data.len() - pos < 7 {
            return Err(DecodeError::UnexpectedEof);
        }
        let mode = read_array::<6>(data, pos);
        let mut z: usize = pos + 7;
        while z < data.len() && data[z] != 0
            invariant
                pos + 7 <= z <= data.len(),
                forall|j: int| pos + 7 <= j < z ==> data@[j] != 0,
            decreases data.len() - z,
        {
            z = z + 1;
        }
        if z == data.len() {
            proof {
                lemma_first_zero_none(s, 7);
            }
            return Err(DecodeError::UnexpectedEof);
        }
        proof {
            lemma_first_zero_found(s, 7, z - pos);
        }
        if data.len() - z - 1 < 20 {
            return Err(DecodeError::UnexpectedEof);
        }
        let path = string_from_utf8_lossy(&data[pos + 7..z]);
        let sha1 = read_array::<20>(data, z + 1);
        let entry = TreeEntry { mode, path, sha1 };
        proof {
            assert(data@.subrange(pos as int, pos + 6) =~= s.subrange(0, 6));
            assert(data@.subrange(pos + 7, z as int) =~= s.subrange(7, z - pos));
            assert(data@.subrange(z + 1, z + 21) =~= s.subrange(z - pos + 1, z - pos + 21));
            assert(entry@ =~= parse_tree_item(s).unwrap().0);
        }
        Ok((entry, z + 21 - pos))
    }

    /// Reads one entry from the front of `data`; `None` when `data` has
    /// fewer than 29 bytes or does not hold a whole entry.
    pub fn deserialize(data: &[u8]) -> (res: Option<TreeEntry>)
        ensures
            res is None <==> parse_tree_entry(data@) is None,
            res matches Some(e) ==> parse_tree_entry(data@) == Some(e@),
    {
        if data.len() < 29 {
            return None;
        }
        assert(data@.subrange(0, data@.len() as int) =~= data@);
        match Self::read_item(data, 0) {
            Ok((entry, _)) => Some(entry),
            Err(_) => None,
        }
    }
}

impl Tree {
    /// Appends the bytes of every entry, in order.
    pub fn serialize(&self, out: &mut Vec<u8>)
        ensures
            final(out)@ == old(out)@ + tree_bytes(tree_models(self.entries@)),
    {
        let ghost start = out@;
        let ghost es = tree_models(self.entries@);
        let mut i: usize = 0;
        while i < self.entries.len()
            invariant
                i <= self.entries.len(),
                es == tree_models(self.entries@),
                out@ == start + tree_bytes(es.subrange(0, i as int)),
            decreases self.entries.len() - i,
        {
            let bytes = self.entries[i].serialize();
            push_bytes(out, bytes.as_slice());
            proof {
                let post = es.subrange(0, i + 1);
                assert(post.drop_last() =~= es.subrange(0, i as int));
                assert(post.last() == es[i as int]);
                assert(out@ =~= start + tree_bytes(post));
            }
            i = i + 1;
        }
        assert(es.subrange(0, es.len() as int) =~= es);
    }

    /// Reads a tree from `data`: an entry, then further entries one after the
    /// other until the input ends.
    pub fn deserialize(data: &[u8]) -> (res: Result<Tree, DecodeError>)
        ensures
            parse_tree(data@) is None <==> res is Err,
            res matches Ok(t) ==> parse_tree(data@) == Some(tree_models(t.entries@)),
    {
        let mut entries: Vec<TreeEntry> = Vec::new();
        let mut pos: usize = 0;
        assert(data@.subrange(0, data@.len() as int) =~= data@);
        assert(tree_prefix_then(parse_tree(data@), tree_models(entries@), parse_tree(data@))) by {
            if parse_tree(data@) is Some {
                assert(tree_models(entries@) + parse_tree(data@).unwrap() =~= parse_tree(data@).unwrap());
            }
        }
        loop
            invariant
                pos <= data.len(),
                tree_prefix_then(
                    parse_tree(data@),
                    tree_models(entries@),
                    parse_tree(data@.subrange(pos as int, data@.len() as int)),
                ),
            decreases data.len() - pos,
        {
            match TreeEntry::read_item(data, pos) {
                Err(e) => {
                    return Err(e);
                },
                Ok((entry, n)) => {
                    let ghost done = tree_models(entries@);
                    let ghost m = entry@;
                    entries.push(entry);
                    assert(tree_models(entries@) =~= done.push(m));
                    if data.len() - pos <= n {
                        proof {
                            assert(done + seq![m] =~= done.push(m));
                        }
                        return Ok(Tree { entries });
                    }
                    proof {
                        lemma_parse_tree_step(data@, pos as int);
                        match parse_tree(data@.subrange(pos + n, data@.len() as int)) {
                            None => {},
                            Some(t) => {
                                assert(done + (seq![m] + t) =~= done.push(m) + t);
                            },
                        }
                    }
                    pos = pos + n;
                },
            }
        }
    }
}

/// The mode names a subtree: its first two bytes are 0 and 4.
pub open spec fn is_subtree_mode(mode: Seq<u8>) -> bool {
    mode[0] == 0 && mode[1] == 4
}

/// The word the tree listing shows for a mode, read from its first two
/// bytes; empty when they name no known kind.
pub open spec fn tree_mode_word(mode: Seq<u8>) -> Seq<char> {
    if is_subtree_mode(mode) {
        "tree"@
    } else if mode[0] == 1 && (mode[1] == 0 || mode[1] == 2) {
        "blob"@
    } else if mode[0] == 1 && mode[1] == 6 {
        "commit"@
    } else {
        ""@
    }
}

/// A mode is descended into exactly when its first two bytes are 0 and 4,
/// which is exactly when its word is "tree"; a mode whose first two bytes
/// are 1 and 6 is a commit, shown as "commit" and not descended into.
pub proof fn lemma_tree_mode_word_subtree(m: Seq<u8>)
    requires
        m.len() == 6,
    ensures
        is_subtree_mode(m) <==> (m[0] == 0 && m[1] == 4),
        is_subtree_mode(m) <==> tree_mode_word(m) == "tree"@,
        (m[0] == 1 && m[1] == 6) ==> !is_subtree_mode(m) && tree_mode_word(m) == "commit"@,
        (m[0] == 1 && (m[1] == 0 || m[1] == 2)) ==> tree_mode_word(m) == "blob"@,
{
    reveal_strlit("tree");
    reveal_strlit("blob");
    reveal_strlit("commit");
    reveal_strlit("");
    if !is_subtree_mode(m) {
        let w = tree_mode_word(m);
        assert(w.len() != 4 || w[0] != 't');
    }
}

/// The word shown for a tree entry's mode.
pub fn tree_mode_name(mode: &[u8; 6]) -> (s: &'static str)
    ensures
        s@ == tree_mode_word(mode@),
{
    if mode[0] == 0 && mode[1] == 4 {
        "tree"
    } else if mode[0] == 1 && (mode[1] == 0 || mode[1] == 2) {
        "blob"
    } else if mode[0] == 1 && mode[1] == 6 {
        "commit"
    } else {
        ""
    }
}

/// The line listing a tree entry: its mode as decimal bytes, the mode's
/// word, its digest as decimal bytes and its path, separated by spaces.
pub open spec fn ls_tree_line(e: TreeEntryModel) -> Seq<char> {
    ascii_chars(decimal_list(e.mode)) + " "@ + tree_mode_word(e.mode) + " "@ + ascii_chars(
        decimal_list(e.sha1),
    ) + " "@ + e.path
}

/// What listing a tree entry calls for: descending into the subtree at a
/// path, or a line of text.
pub enum TreeListing {
    Subtree(String),
    Line(String),
}

/// Decides how an entry is listed: a subtree entry is descended into at its
/// path, any other entry is shown as `ls_tree_line`.
pub fn ls_tree_entry(entry: &TreeEntry) -> (l: TreeListing)
    ensures
        (l is Subtree) <==> (entry.mode[0] == 0 && entry.mode[1] == 4),
        is_subtree_mode(entry.mode@) ==> (l matches TreeListing::Subtree(p) && p@ == entry.path@),
        !is_subtree_mode(entry.mode@) ==> (l matches TreeListing::Line(s) && s@ == ls_tree_line(
            entry@,
        )),
{
    if entry.mode[0] == 0 && entry.mode[1] == 4 {
        return TreeListing::Subtree(entry.path.clone());
    }
    let mut line = decimal_list_string(entry.mode.as_slice());
    line.append(" ");
    line.append(tree_mode_name(&entry.mode));
    line.append(" ");
    let digest = decimal_list_string(entry.sha1.as_slice());
    line.append(digest.as_str());
    line.append(" ");
    line.append(entry.path.as_str());
    TreeListing::Line(line)
}

/// Writing a tree from the working directory; nothing is done yet.
pub fn write_tree() {
}

} // verus!
