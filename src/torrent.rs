use vstd::prelude::*;

use crate::bencode::{
    bytes_entry, bytes_text, decode_bencoded_vec, dict_lookup, encode, encoding, entries_text,
    int_entry, is_canonical, lookup_from, Value,
};
use crate::digest::{sha1_digest, sha1_of};
use crate::error::Error;

verus! {

/// `announce`
pub const KEY_ANNOUNCE: [u8; 8] = [97, 110, 110, 111, 117, 110, 99, 101];

/// `info`
pub const KEY_INFO: [u8; 4] = [105, 110, 102, 111];

/// `piece length`
pub const KEY_PIECE_LENGTH: [u8; 12] = [112, 105, 101, 99, 101, 32, 108, 101, 110, 103, 116, 104];

/// `pieces`
pub const KEY_PIECES: [u8; 6] = [112, 105, 101, 99, 101, 115];

/// `name`
pub const KEY_NAME: [u8; 4] = [110, 97, 109, 101];

/// `length`
pub const KEY_LENGTH: [u8; 6] = [108, 101, 110, 103, 116, 104];

/// `files`
pub const KEY_FILES: [u8; 5] = [102, 105, 108, 101, 115];

/// `path`
pub const KEY_PATH: [u8; 4] = [112, 97, 116, 104];

/// One file of a multi-file torrent.
pub struct FileEntry {
    pub length: u64,
    pub path: Vec<Vec<u8>>,
}

/// What distinguishes a single-file torrent from a multi-file one.
pub enum Additional {
    SingleFile { length: u64 },
    MultiFile { files: Vec<FileEntry> },
}

/// The `info` dictionary of a torrent, with the canonical bytes it was read
/// from; those bytes are what the info-hash is taken over.
pub struct Info {
    pub piece_length: u32,
    pub pieces: Vec<u8>,
    pub name: Vec<u8>,
    pub additional: Additional,
    pub encoded: Vec<u8>,
}

/// A torrent: the tracker's announce URL and the `info` dictionary.
pub struct Torrent {
    pub announce: Vec<u8>,
    pub info: Info,
}

/// `a / b` rounded up.
pub open spec fn ceil_div(a: nat, b: nat) -> nat {
    if b == 0 {
        0
    } else {
        ((a + b - 1) as nat) / b
    }
}

/// Sum of the lengths of the first `n` files.
pub open spec fn files_len(files: Seq<FileEntry>, n: nat) -> nat
    decreases n,
{
    if n == 0 || n > files.len() {
        0
    } else {
        (files_len(files, (n - 1) as nat) + files[n - 1].length) as nat
    }
}

/// Every one of `parts` is a byte string.
pub open spec fn all_bytes(parts: Seq<Value>) -> bool {
    forall|j: int| 0 <= j < parts.len() ==> #[trigger] parts[j] is Bytes
}

/// `path` holds the byte strings of `parts`, in order.
pub open spec fn path_matches(path: Seq<Vec<u8>>, parts: Seq<Value>) -> bool {
    &&& path.len() == parts.len()
    &&& forall|j: int|
        0 <= j < parts.len() ==> #[trigger] parts[j] is Bytes && parts[j]->Bytes_0@ == path[j]@
}

/// The length of a well-formed entry of `files`: a dictionary with a
/// non-negative `length` and a `path` list of byte strings.
pub open spec fn file_entry_length(f: Value) -> Option<nat> {
    match (int_entry(f, KEY_LENGTH@), dict_lookup(f, KEY_PATH@)) {
        (Some(l), Some(Value::List(parts))) => if l >= 0 && all_bytes(parts@) {
            Some(l as nat)
        } else {
            None
        },
        _ => None,
    }
}

/// Total length of the first `n` entries of `files`, when they are all well formed.
pub open spec fn files_total(fs: Seq<Value>, n: nat) -> Option<nat>
    decreases n,
{
    if n == 0 {
        Some(0)
    } else if n > fs.len() {
        None
    } else {
        match (files_total(fs, (n - 1) as nat), file_entry_length(fs[n - 1])) {
            (Some(a), Some(b)) => Some(a + b),
            _ => None,
        }
    }
}

/// The content length an info dictionary declares: its `length` when it has
/// one, else the sum over its `files`.
pub open spec fn declared_length(v: Value) -> Option<nat> {
    if dict_lookup(v, KEY_LENGTH@) is Some {
        match int_entry(v, KEY_LENGTH@) {
            Some(l) => if l >= 0 {
                Some(l as nat)
            } else {
                None
            },
            None => None,
        }
    } else {
        match dict_lookup(v, KEY_FILES@) {
            Some(Value::List(fs)) => files_total(fs@, fs@.len()),
            _ => None,
        }
    }
}

/// An info dictionary this client can use: a positive `piece length` that
/// fits in 32 bits, `pieces` made of whole 20-byte digests, a `name`, a
/// declared length that fits in 64 bits, and one digest per piece.
pub open spec fn info_value_ok(v: Value) -> bool {
    &&& v is Dict
    &&& int_entry(v, KEY_PIECE_LENGTH@) matches Some(pl) && 0 < pl <= u32::MAX
    &&& bytes_entry(v, KEY_PIECES@) matches Some(p) && p.len() % 20 == 0
    &&& bytes_entry(v, KEY_NAME@) is Some
    &&& declared_length(v) matches Some(len) && len <= u64::MAX
    &&& bytes_entry(v, KEY_PIECES@).unwrap().len() / 20 == ceil_div(
        declared_length(v).unwrap(),
        int_entry(v, KEY_PIECE_LENGTH@).unwrap() as nat,
    )
}

/// `info` holds what the info dictionary `v` says.
pub open spec fn info_matches(info: Info, v: Value) -> bool {
    &&& info.piece_length == int_entry(v, KEY_PIECE_LENGTH@).unwrap()
    &&& info.pieces@ == bytes_entry(v, KEY_PIECES@).unwrap()
    &&& info.name@ == bytes_entry(v, KEY_NAME@).unwrap()
    &&& info.spec_file_len() == declared_length(v).unwrap()
    &&& (info.additional is SingleFile <==> dict_lookup(v, KEY_LENGTH@) is Some)
    &&& (info.additional matches Additional::MultiFile { files } ==> {
        &&& dict_lookup(v, KEY_FILES@) matches Some(Value::List(fs))
        &&& files@.len() == fs@.len()
        &&& forall|i: int|
            0 <= i < fs@.len() ==> {
                &&& Some(#[trigger] files@[i].length as nat) == file_entry_length(fs@[i])
                &&& path_matches(files@[i].path@, dict_lookup(fs@[i], KEY_PATH@)->0->List_0@)
            }
    })
    &&& info.encoded@ == encoding(v)
}

/// A metainfo dictionary this client can use: a byte-string `announce` and
/// a usable `info` dictionary.
pub open spec fn torrent_value_ok(v: Value) -> bool {
    &&& v is Dict
    &&& bytes_entry(v, KEY_ANNOUNCE@) is Some
    &&& dict_lookup(v, KEY_INFO@) matches Some(iv) && info_value_ok(iv)
}

/// `t` holds what the metainfo dictionary `v` says.
pub open spec fn torrent_matches(t: Torrent, v: Value) -> bool {
    &&& t.announce@ == bytes_entry(v, KEY_ANNOUNCE@).unwrap()
    &&& info_matches(t.info, dict_lookup(v, KEY_INFO@).unwrap())
}

proof fn lemma_files_total_prefix(fs: Seq<Value>, k: nat, n: nat)
    requires
        k <= n,
        files_total(fs, n) is Some,
    ensures
        files_total(fs, k) is Some,
        files_total(fs, k).unwrap() <= files_total(fs, n).unwrap(),
    decreases n - k,
{
    if k < n {
        lemma_files_total_prefix(fs, k, (n - 1) as nat);
    }
}

proof fn lemma_files_len_prefix(files: Seq<FileEntry>, k: nat, n: nat)
    requires
        k <= n <= files.len(),
    ensures
        files_len(files, k) <= files_len(files, n),
    decreases n - k,
{
    if k < n {
        lemma_files_len_prefix(files, k, (n - 1) as nat);
    }
}

/// Past the last full piece: the index of a piece lies below the content length.
pub proof fn lemma_piece_start_in_file(i: nat, len: nat, pl: nat)
    requires
        pl > 0,
        i < ceil_div(len, pl),
    ensures
        i * pl < len,
        (i + 1) * pl <= len + pl - 1,
{
    assert((i + 1) * pl <= len + pl - 1 && i * pl < len) by (nonlinear_arith)
        requires
            pl > 0,
            i < ((len + pl - 1) as nat) / pl,
    ;
}

impl FileEntry {
    /// Reads one entry of `files`.
    fn from_value(f: &Value) -> (r: Option<FileEntry>)
        ensures
            r is Some <==> file_entry_length(*f) is Some,
            r matches Some(e) ==> {
                &&& Some(e.length as nat) == file_entry_length(*f)
                &&& path_matches(e.path@, dict_lookup(*f, KEY_PATH@)->0->List_0@)
            },
    {
        let length = match f.get_int(&KEY_LENGTH) {
            Some(l) => l,
            None => {
                return None;
            },
        };
        let parts = match f.get(&KEY_PATH) {
            Some(Value::List(parts)) => parts,
            _ => {
                return None;
            },
        };
        if length < 0 {
            return None;
        }
        let mut path: Vec<Vec<u8>> = Vec::new();
        let mut k: usize = 0;
        while k < parts.len()
            invariant
                k <= parts@.len(),
                path@.len() == k,
                dict_lookup(*f, KEY_PATH@) == Some(Value::List(*parts)),
                int_entry(*f, KEY_LENGTH@) == Some(length as int),
                length >= 0,
                forall|j: int|
                    0 <= j < k ==> #[trigger] parts@[j] is Bytes && parts@[j]->Bytes_0@
                        == path@[j]@,
            decreases parts@.len() - k,
        {
            match &parts[k] {
                Value::Bytes(b) => {
                    let mut c: Vec<u8> = Vec::new();
                    crate::bencode::extend_bytes(&mut c, b.as_slice());
                    path.push(c);
                },
                _ => {
                    assert(!(parts@[k as int] is Bytes));
                    return None;
                },
            }
            k = k + 1;
        }
        Some(FileEntry { length: length as u64, path })
    }
}

impl Info {
    /// The content length: the single file's, or the sum over all files.
    pub open spec fn spec_file_len(&self) -> nat {
        match self.additional {
            Additional::SingleFile { length } => length as nat,
            Additional::MultiFile { files } => files_len(files@, files@.len()),
        }
    }

    /// The number of 20-byte digests in `pieces`.
    pub open spec fn piece_count(&self) -> nat {
        self.pieces@.len() / 20
    }

    /// The digest of piece `i`.
    pub open spec fn piece_hash(&self, i: int) -> Seq<u8> {
        self.pieces@.subrange(20 * i, 20 * i + 20)
    }

    /// Pieces are whole digests, one per piece of `piece_length` bytes (the
    /// last may be shorter), and the content length fits in 64 bits.
    pub open spec fn wf(&self) -> bool {
        &&& self.piece_length > 0
        &&& self.pieces@.len() % 20 == 0
        &&& self.spec_file_len() <= u64::MAX
        &&& self.piece_count() == ceil_div(self.spec_file_len(), self.piece_length as nat)
    }

    /// The byte length of piece `i`.
    pub open spec fn spec_piece_size(&self, i: nat) -> nat {
        let rest = self.spec_file_len() - i * self.piece_length;
        if rest < self.piece_length {
            rest as nat
        } else {
            self.piece_length as nat
        }
    }

    /// The byte offset at which piece `i` starts.
    pub open spec fn piece_start(&self, i: nat) -> nat {
        i * (self.piece_length as nat)
    }

    /// Reads an info dictionary; `encoded` is its canonical encoding.
    pub fn from_value(v: &Value, encoded: Vec<u8>) -> (r: Result<Info, Error>)
        requires
            encoded@ == encoding(*v),
        ensures
            r is Ok <==> info_value_ok(*v),
            r matches Ok(info) ==> info.wf() && info_matches(info, *v),
            r matches Err(e) ==> e == Error::UnsupportedTorrent,
    {
        let pl = match v.get_int(&KEY_PIECE_LENGTH) {
            Some(pl) => pl,
            None => {
                return Err(Error::UnsupportedTorrent);
            },
        };
        if pl <= 0 || pl > 4294967295 {
            return Err(Error::UnsupportedTorrent);
        }
        let pieces = match v.get_bytes(&KEY_PIECES) {
            Some(p) => p,
            None => {
                return Err(Error::UnsupportedTorrent);
            },
        };
        if pieces.len() % 20 != 0 {
            return Err(Error::UnsupportedTorrent);
        }
        let name = match v.get_bytes(&KEY_NAME) {
            Some(n) => n,
            None => {
                return Err(Error::UnsupportedTorrent);
            },
        };
        let (additional, file_len) = match v.get(&KEY_LENGTH) {
            Some(_) => {
                match v.get_int(&KEY_LENGTH) {
                    Some(l) => {
                        if l < 0 {
                            return Err(Error::UnsupportedTorrent);
                        }
                        (Additional::SingleFile { length: l as u64 }, l as u64)
                    },
                    None => {
                        return Err(Error::UnsupportedTorrent);
                    },
                }
            },
            None => {
                let fs = match v.get(&KEY_FILES) {
                    Some(Value::List(fs)) => fs,
                    _ => {
                        return Err(Error::UnsupportedTorrent);
                    },
                };
                let mut files: Vec<FileEntry> = Vec::new();
                let mut total: u64 = 0;
                let mut k: usize = 0;
                while k < fs.len()
                    invariant
                        k <= fs@.len(),
                        files@.len() == k,
                        dict_lookup(*v, KEY_LENGTH@) is None,
                        dict_lookup(*v, KEY_FILES@) == Some(Value::List(*fs)),
                        files_total(fs@, k as nat) == Some(total as nat),
                        files_len(files@, k as nat) == total,
                        forall|i: int|
                            0 <= i < k ==> {
                                &&& Some(#[trigger] files@[i].length as nat) == file_entry_length(
                                    fs@[i],
                                )
                                &&& path_matches(
                                    files@[i].path@,
                                    dict_lookup(fs@[i], KEY_PATH@)->0->List_0@,
                                )
                            },
                    decreases fs@.len() - k,
                {
                    let entry = match FileEntry::from_value(&fs[k]) {
                        Some(e) => e,
                        None => {
                            proof {
                                assert(file_entry_length(fs@[k as int]) is None);
                                assert(files_total(fs@, (k + 1) as nat) is None);
                                if files_total(fs@, fs@.len()) is Some {
                                    lemma_files_total_prefix(fs@, (k + 1) as nat, fs@.len());
                                }

                            }
                            return Err(Error::UnsupportedTorrent);
                        },
                    };
                    if entry.length > 18446744073709551615u64 - total {
                        proof {
                            if files_total(fs@, fs@.len()) is Some {
                                lemma_files_total_prefix(fs@, (k + 1) as nat, fs@.len());
                            }
                        }
                        return Err(Error::UnsupportedTorrent);
                    }
                    total = total + entry.length;
                    let ghost before = files@;
                    files.push(entry);
                    proof {
                        assert(files@.subrange(0, before.len() as int) =~= before);
                        assert forall|n: nat| n <= k implies files_len(files@, n) == files_len(
                            before,
                            n,
                        ) by {
                            lemma_files_len_push(before, files@, n);
                        }
                    }
                    k = k + 1;
                }
                (Additional::MultiFile { files }, total)
            },
        };
        let pl32 = pl as u32;
        let count = (pieces.len() / 20) as u64;
        let whole = file_len / (pl as u64);
        let expected = if file_len % (pl as u64) != 0 {
            assert(whole < 18446744073709551615u64) by (nonlinear_arith)
                requires
                    whole == file_len / (pl as u64),
                    file_len % (pl as u64) != 0,
                    pl >= 1,
            {
                if pl == 1 {
                    assert(file_len % 1 == 0);
                } else {
                    assert(whole <= file_len / 2) by {
                        vstd::arithmetic::div_mod::lemma_div_is_ordered_by_denominator(
                            file_len as int,
                            2,
                            pl as int,
                        );
                    }
                }
            }
            whole + 1
        } else {
            whole
        };
        proof {
            lemma_ceil_div(file_len as nat, pl as nat);
        }
        if count != expected {
            return Err(Error::UnsupportedTorrent);
        }
        let mut pieces_copy: Vec<u8> = Vec::new();
        crate::bencode::extend_bytes(&mut pieces_copy, pieces.as_slice());
        let mut name_copy: Vec<u8> = Vec::new();
        crate::bencode::extend_bytes(&mut name_copy, name.as_slice());
        Ok(Info {
            piece_length: pl32,
            pieces: pieces_copy,
            name: name_copy,
            additional,
            encoded,
        })
    }
}

/// Rounding up, written with a remainder.
pub proof fn lemma_ceil_div(a: nat, b: nat)
    requires
        b > 0,
    ensures
        ceil_div(a, b) == a / b + (if a % b != 0 {
            1nat
        } else {
            0nat
        }),
{
    assert(((a + b - 1) as nat) / b == a / b + (if a % b != 0 {
        1nat
    } else {
        0nat
    })) by (nonlinear_arith)
        requires
            b > 0,
    {
        let q = a / b;
        let r = a % b;
        assert(a == q * b + r);
        if r == 0 {
            assert((a + b - 1) as nat == q * b + (b - 1));
            vstd::arithmetic::div_mod::lemma_fundamental_div_mod_converse(
                (a + b - 1) as int,
                b as int,
                q as int,
                (b - 1) as int,
            );
        } else {
            assert((a + b - 1) as nat == (q + 1) * b + (r - 1));
            vstd::arithmetic::div_mod::lemma_fundamental_div_mod_converse(
                (a + b - 1) as int,
                b as int,
                (q + 1) as int,
                (r - 1) as int,
            );
        }
    }
}


impl Info {
    /// The content length.
    pub fn file_len(&self) -> (r: u64)
        requires
            self.wf(),
        ensures
            r == self.spec_file_len(),
    {
        match &self.additional {
            Additional::SingleFile { length } => *length,
            Additional::MultiFile { files } => {
                let mut total: u64 = 0;
                let mut k: usize = 0;
                while k < files.len()
                    invariant
                        k <= files@.len(),
                        total == files_len(files@, k as nat),
                        files_len(files@, files@.len()) <= u64::MAX,
                    decreases files@.len() - k,
                {
                    proof {
                        lemma_files_len_prefix(files@, (k + 1) as nat, files@.len());
                    }
                    total = total + files[k].length;
                    k = k + 1;
                }
                total
            },
        }
    }

    /// The digest of each piece, in index order.
    pub fn pieces(&self) -> (r: Vec<Vec<u8>>)
        ensures
            r@.len() == self.pieces@.len() / 20,
            forall|i: int| 0 <= i < r@.len() ==> #[trigger] r@[i]@ == self.piece_hash(i),
    {
        let total = self.pieces.len();
        let n = total / 20;
        assert(20 * n <= self.pieces@.len());
        let mut out: Vec<Vec<u8>> = Vec::new();
        let mut i: usize = 0;
        while i < n
            invariant
                i <= n,
                n == self.pieces@.len() / 20,
                20 * n <= self.pieces@.len(),
                total == self.pieces@.len(),
                out@.len() == i,
                forall|j: int| 0 <= j < i ==> #[trigger] out@[j]@ == self.piece_hash(j),
            decreases n - i,
        {
            assert(20 * i + 20 <= 20 * n);
            assert(20 * i + 20 <= total);
            let mut h: Vec<u8> = Vec::new();
            crate::bencode::extend_bytes(&mut h, &self.pieces.as_slice()[20 * i..20 * i + 20]);
            out.push(h);
            i = i + 1;
        }
        out
    }

    /// The byte length of piece `index`: `piece_length`, or what is left of
    /// the content for the last piece.
    pub fn piece_size(&self, index: u32) -> (r: u32)
        requires
            self.wf(),
            index < self.piece_count(),
        ensures
            r == self.spec_piece_size(index as nat),
    {
        let len = self.file_len();
        proof {
            lemma_piece_start_in_file(index as nat, len as nat, self.piece_length as nat);
        }
        let start = (index as u64) * (self.piece_length as u64);
        let rest = len - start;
        if rest < self.piece_length as u64 {
            rest as u32
        } else {
            self.piece_length
        }
    }
}

/// Sum of the sizes of the first `n` pieces.
pub open spec fn sizes_sum(info: Info, n: nat) -> nat
    decreases n,
{
    if n == 0 {
        0
    } else {
        sizes_sum(info, (n - 1) as nat) + info.spec_piece_size((n - 1) as nat)
    }
}

/// The digests cover the content: one per `piece_length` bytes, rounded up.
pub proof fn lemma_piece_count(info: Info)
    requires
        info.wf(),
    ensures
        info.pieces@.len() / 20 == ceil_div(info.spec_file_len(), info.piece_length as nat),
{
}

/// Every piece but the last is `piece_length` long, the last holds the rest,
/// and together they make up the content.
pub proof fn lemma_piece_sizes(info: Info)
    requires
        info.wf(),
    ensures
        forall|i: nat|
            i + 1 < info.piece_count() ==> #[trigger] info.spec_piece_size(i)
                == info.piece_length,
        info.piece_count() > 0 ==> info.spec_piece_size((info.piece_count() - 1) as nat)
            == info.spec_file_len() - (info.piece_count() - 1) * info.piece_length,
        sizes_sum(info, info.piece_count()) == info.spec_file_len(),
{
    let n = info.piece_count();
    let pl = info.piece_length as nat;
    let len = info.spec_file_len();
    assert forall|i: nat| i + 1 < n implies #[trigger] info.spec_piece_size(i) == pl by {
        lemma_piece_start_in_file(i + 1, len, pl);
        assert((i + 1) * pl == i * pl + pl) by (nonlinear_arith);
    }
    if n > 0 {
        lemma_sizes_sum_full(info, (n - 1) as nat);
        lemma_piece_start_in_file((n - 1) as nat, len, pl);
        assert(len <= n * pl) by (nonlinear_arith)
            requires
                n == ((len + pl - 1) as nat) / pl,
                pl > 0,
        {
            vstd::arithmetic::div_mod::lemma_fundamental_div_mod((len + pl - 1) as int, pl as int);
        }
        assert(n * pl == (n - 1) * pl + pl) by (nonlinear_arith)
            requires
                n > 0,
        ;
        assert(sizes_sum(info, n) == sizes_sum(info, (n - 1) as nat) + info.spec_piece_size(
            (n - 1) as nat,
        ));
    } else {
        assert(len == 0) by (nonlinear_arith)
            requires
                0 == ((len + pl - 1) as nat) / pl,
                pl > 0,
        ;
    }
}

proof fn lemma_sizes_sum_full(info: Info, k: nat)
    requires
        info.wf(),
        k + 1 <= info.piece_count() || k == 0,
    ensures
        k + 1 <= info.piece_count() ==> sizes_sum(info, k) == k * info.piece_length,
        k == 0 ==> sizes_sum(info, k) == 0,
    decreases k,
{
    let pl = info.piece_length as nat;
    if k > 0 {
        lemma_sizes_sum_full(info, (k - 1) as nat);
        lemma_piece_start_in_file(k, info.spec_file_len(), pl);
        assert(k * pl == (k - 1) * pl + pl) by (nonlinear_arith)
            requires
                k > 0,
        ;
    }
}


/// `content` is a canonical encoding of a metainfo dictionary that `t` holds.
pub open spec fn metainfo_of(content: Seq<u8>, t: Torrent) -> bool {
    exists|v: Value|
        is_canonical(v) && encoding(v) == content && torrent_value_ok(v) && #[trigger] torrent_matches(
            t,
            v,
        )
}

impl Torrent {
    /// The info-hash: the SHA-1 digest of the encoded `info` dictionary.
    pub open spec fn spec_info_hash(&self) -> Seq<u8> {
        sha1_of(self.info.encoded@)
    }

    /// Reads a metainfo dictionary.
    pub fn from_value(v: &Value) -> (r: Result<Torrent, Error>)
        ensures
            r is Ok <==> torrent_value_ok(*v),
            r matches Ok(t) ==> t.info.wf() && torrent_matches(t, *v),
            r matches Err(e) ==> e == Error::UnsupportedTorrent,
    {
        let announce = match v.get_bytes(&KEY_ANNOUNCE) {
            Some(a) => a,
            None => {
                return Err(Error::UnsupportedTorrent);
            },
        };
        let iv = match v.get(&KEY_INFO) {
            Some(iv) => iv,
            None => {
                return Err(Error::UnsupportedTorrent);
            },
        };
        let encoded = encode(iv);
        let info = match Info::from_value(iv, encoded) {
            Ok(info) => info,
            Err(e) => {
                return Err(e);
            },
        };
        let mut announce_copy: Vec<u8> = Vec::new();
        crate::bencode::extend_bytes(&mut announce_copy, announce.as_slice());
        Ok(Torrent { announce: announce_copy, info })
    }

    /// Reads a `.torrent` file's bytes: a canonical bencoded metainfo
    /// dictionary. Bytes that are no canonical bencoding are a parse error;
    /// a canonical value that is no usable metainfo dictionary is an
    /// unsupported torrent.
    pub fn new(content: &Vec<u8>) -> (r: Result<Torrent, Error>)
        ensures
            r matches Ok(t) ==> t.info.wf() && metainfo_of(content@, t),
            (r is Err && r->Err_0 is BencodeParse) <==> !(exists|w: Value|
                is_canonical(w) && #[trigger] encoding(w) == content@),
            r matches Err(e) ==> e is BencodeParse || (e == Error::UnsupportedTorrent && exists|
                v: Value,
            | is_canonical(v) && #[trigger] encoding(v) == content@ && !torrent_value_ok(v)),
    {
        let v = match decode_bencoded_vec(content) {
            Ok(v) => v,
            Err(e) => {
                return Err(Error::BencodeParse(e));
            },
        };
        let r = Torrent::from_value(&v);
        proof {
            if r is Ok {
                assert(torrent_matches(r->Ok_0, v));
            }
        }
        r
    }

    /// The info-hash: SHA-1 over the canonical bytes of `info`.
    pub fn info_hash(&self) -> (r: [u8; 20])
        ensures
            r@ == self.spec_info_hash(),
    {
        sha1_digest(self.info.encoded.as_slice())
    }

    /// The content length.
    pub fn len(&self) -> (r: u64)
        requires
            self.info.wf(),
        ensures
            r == self.info.spec_file_len(),
    {
        self.info.file_len()
    }

    /// The digest of each piece, in index order.
    pub fn pieces(&self) -> (r: Vec<Vec<u8>>)
        ensures
            r@.len() == self.info.pieces@.len() / 20,
            forall|i: int| 0 <= i < r@.len() ==> #[trigger] r@[i]@ == self.info.piece_hash(i),
    {
        self.info.pieces()
    }
}

/// Where the value of entry `k` starts inside the encoding of its dictionary.
pub open spec fn entry_value_offset(es: Seq<(Vec<u8>, Value)>, k: nat) -> int {
    1 + entries_text(es, k).len() as int + bytes_text(es[k as int].0@).len() as int
}

proof fn lemma_entry_value_inside(es: Seq<(Vec<u8>, Value)>, k: nat, n: nat)
    requires
        k < n <= es.len(),
    ensures
        entry_value_offset(es, k) - 1 + encoding(es[k as int].1).len() <= entries_text(es, n).len(),
        entries_text(es, n).subrange(
            entry_value_offset(es, k) - 1,
            entry_value_offset(es, k) - 1 + encoding(es[k as int].1).len(),
        ) == encoding(es[k as int].1),
    decreases n,
{
    let s = entry_value_offset(es, k) - 1;
    let e = s + encoding(es[k as int].1).len();
    if n == k + 1 {
        assert(entries_text(es, n) == entries_text(es, k) + bytes_text(es[k as int].0@) + encoding(
            es[k as int].1,
        ));
        assert(entries_text(es, n).subrange(s, e) =~= encoding(es[k as int].1));
    } else {
        lemma_entry_value_inside(es, k, (n - 1) as nat);
        let prev = entries_text(es, (n - 1) as nat);
        assert(entries_text(es, n) == prev + bytes_text(es[n - 1].0@) + encoding(es[n - 1].1));
        assert(entries_text(es, n).subrange(s, e) =~= prev.subrange(s, e));
    }
}

proof fn lemma_lookup_index(es: Seq<(Vec<u8>, Value)>, key: Seq<u8>, j: int) -> (k: nat)
    requires
        0 <= j,
        lookup_from(es, key, j) is Some,
    ensures
        j <= k < es.len(),
        es[k as int].1 == lookup_from(es, key, j).unwrap(),
    decreases es.len() - j,
{
    if es[j].0@ == key {
        j as nat
    } else {
        lemma_lookup_index(es, key, j + 1)
    }
}

/// The info-hash is the SHA-1 digest of the `info` dictionary exactly as it
/// appears in the metainfo bytes: those bytes are a contiguous range of the
/// input, and they are the bytes hashed.
pub proof fn lemma_info_hash_of_input(content: Seq<u8>, t: Torrent)
    requires
        metainfo_of(content, t),
    ensures
        exists|s: int, e: int|
            0 <= s <= e <= content.len() && #[trigger] content.subrange(s, e) == t.info.encoded@
                && t.spec_info_hash() == sha1_of(content.subrange(s, e)),
{
    let v = choose|v: Value|
        is_canonical(v) && encoding(v) == content && torrent_value_ok(v) && #[trigger] torrent_matches(
            t,
            v,
        );
    let es = v->Dict_0@;
    let k = lemma_lookup_index(es, KEY_INFO@, 0);
    lemma_entry_value_inside(es, k, es.len());
    let s = entry_value_offset(es, k);
    let e = s + encoding(es[k as int].1).len();
    assert(content == seq![100u8] + entries_text(es, es.len()) + seq![101u8]);
    assert(content.subrange(s, e) =~= entries_text(es, es.len()).subrange(s - 1, e - 1));
    assert(content.subrange(s, e) == t.info.encoded@);
}

proof fn lemma_files_len_push(before: Seq<FileEntry>, after: Seq<FileEntry>, n: nat)
    requires
        after.len() == before.len() + 1,
        after.subrange(0, before.len() as int) == before,
        n <= before.len(),
    ensures
        files_len(after, n) == files_len(before, n),
    decreases n,
{
    if n > 0 {
        lemma_files_len_push(before, after, (n - 1) as nat);
        assert(after[n - 1] == after.subrange(0, before.len() as int)[n - 1]);
    }
}

} // verus!
