//! The MTP (PTP over USB) exchange with a Kindle Scribe: building command
//! containers, reading data and response containers, decoding object
//! information, and choosing which objects to copy and where.
//!
//! The USB transfers themselves are left to the caller: it writes what
//! [`MtpClient::command_container`] builds and feeds what it reads to a
//! [`Transfer`], which says what to read next.

use vstd::prelude::*;

use crate::models::SyncProgress;
use crate::text::{
    chars_of, contains, ends_with, hex_min, hex_padded, push_decimal, push_hex,
    push_hex_padded, push_str, starts_with, string_from_chars,
};

verus! {

/// Talks MTP with a Kindle Scribe.
pub struct MtpClient;

impl MtpClient {
    /// Amazon's USB vendor id.
    pub const SCRIBE_VID: u16 = 0x1949;

    /// The Kindle Scribe's USB product id.
    pub const SCRIBE_PID: u16 = 0x9981;
}

/// An object on the device, as its ObjectInfo dataset describes it.
#[derive(Clone, Debug)]
pub struct MtpFileInfo {
    pub handle: u32,
    pub filename: String,
    pub size: u32,
    pub parent_handle: u32,
    pub is_folder: bool,
}

/// The spec-level content of an [`MtpFileInfo`].
pub struct MtpFileInfoView {
    pub handle: u32,
    pub filename: Seq<char>,
    pub size: u32,
    pub parent_handle: u32,
    pub is_folder: bool,
}

impl View for MtpFileInfo {
    type V = MtpFileInfoView;

    open spec fn view(&self) -> MtpFileInfoView {
        MtpFileInfoView {
            handle: self.handle,
            filename: self.filename@,
            size: self.size,
            parent_handle: self.parent_handle,
            is_folder: self.is_folder,
        }
    }
}

/// The little-endian `u16` at `data[i..i + 2]`.
pub open spec fn le_u16(data: Seq<u8>, i: int) -> u16 {
    (data[i] as int + data[i + 1] as int * 256) as u16
}

/// The little-endian `u32` at `data[i..i + 4]`.
pub open spec fn le_u32(data: Seq<u8>, i: int) -> u32 {
    (data[i] as int + data[i + 1] as int * 256 + data[i + 2] as int * 65536 + data[i + 3] as int
        * 16777216) as u32
}

/// The little-endian bytes of `v`.
pub open spec fn le16_bytes(v: u16) -> Seq<u8> {
    seq![(v % 256) as u8, (v / 256) as u8]
}

/// The little-endian bytes of `v`.
pub open spec fn le32_bytes(v: u32) -> Seq<u8> {
    seq![(v % 256) as u8, ((v / 256) % 256) as u8, ((v / 65536) % 256) as u8, (v / 16777216) as u8]
}

pub fn read_le_u16(data: &[u8], i: usize) -> (r: u16)
    requires
        i + 2 <= data@.len(),
    ensures
        r == le_u16(data@, i as int),
{
    data[i] as u16 + data[i + 1] as u16 * 256
}

pub fn read_le_u32(data: &[u8], i: usize) -> (r: u32)
    requires
        i + 4 <= data@.len(),
    ensures
        r == le_u32(data@, i as int),
{
    data[i] as u32 + data[i + 1] as u32 * 256 + data[i + 2] as u32 * 65536 + data[i + 3] as u32
        * 16777216
}

fn push_le16(buf: &mut Vec<u8>, v: u16)
    ensures
        final(buf)@ == old(buf)@ + le16_bytes(v),
{
    buf.push((v % 256) as u8);
    buf.push((v / 256) as u8);
    assert(final(buf)@ =~= old(buf)@ + le16_bytes(v));
}

fn push_le32(buf: &mut Vec<u8>, v: u32)
    ensures
        final(buf)@ == old(buf)@ + le32_bytes(v),
{
    buf.push((v % 256) as u8);
    buf.push(((v / 256) % 256) as u8);
    buf.push(((v / 65536) % 256) as u8);
    buf.push((v / 16777216) as u8);
    assert(final(buf)@ =~= old(buf)@ + le32_bytes(v));
}

/// The little-endian bytes of each parameter, in order.
pub open spec fn params_bytes(ps: Seq<u32>) -> Seq<u8>
    decreases ps.len(),
{
    if ps.len() == 0 {
        seq![]
    } else {
        params_bytes(ps.drop_last()) + le32_bytes(ps.last())
    }
}

/// A command container: its length, type 1 (command), the operation code,
/// the transaction id and the parameters, all little-endian.
pub open spec fn command_bytes(code: u16, tx_id: u32, params: Seq<u32>) -> Seq<u8> {
    le32_bytes((12 + 4 * params.len()) as u32) + le16_bytes(1) + le16_bytes(code) + le32_bytes(tx_id)
        + params_bytes(params)
}

/// How `String::from_utf16_lossy` decodes UTF-16: a unit outside the
/// surrogate range is its own character, a high surrogate followed by a low
/// one is the character they encode, and any other surrogate is U+FFFD.
pub open spec fn utf16_lossy(u: Seq<u16>) -> Seq<char>
    decreases u.len(),
{
    if u.len() == 0 {
        seq![]
    } else if u[0] < 0xD800 || u[0] > 0xDFFF {
        seq![u[0] as char] + utf16_lossy(u.drop_first())
    } else if u[0] <= 0xDBFF && u.len() > 1 && 0xDC00 <= u[1] <= 0xDFFF {
        seq![(0x10000 + (u[0] - 0xD800) * 0x400 + (u[1] - 0xDC00)) as char] + utf16_lossy(
            u.subrange(2, u.len() as int),
        )
    } else {
        seq!['\u{FFFD}'] + utf16_lossy(u.drop_first())
    }
}

/// Calls `String::from_utf16_lossy`. Claimed: the result is
/// `utf16_lossy(units)`, as the documentation of `char::decode_utf16` and
/// `from_utf16_lossy` describes the decoding.
#[verifier::external_body]
fn from_utf16_lossy(units: &[u16]) -> (r: String)
    ensures
        r@ == utf16_lossy(units@),
{
    String::from_utf16_lossy(units)
}

/// The `m` UTF-16 units stored little-endian from `start` on.
pub open spec fn units_at(data: Seq<u8>, start: int, m: int) -> Seq<u16> {
    Seq::new(m as nat, |k: int| le_u16(data, start + 2 * k))
}

/// How many of `count` units stored from `start` on fit in `len` bytes.
pub open spec fn units_in(len: int, start: int, count: int) -> int {
    if count <= (len - start) / 2 {
        count
    } else {
        (len - start) / 2
    }
}

/// An MTP string at `offset`: a count byte `n`, then `n - 1` UTF-16 units
/// and a terminating one. Where the data ends early, the units that fit are
/// taken. Gives the text and the offset after the string.
pub open spec fn mtp_string(data: Seq<u8>, offset: int) -> (Seq<char>, int) {
    if offset >= data.len() {
        (seq![], offset)
    } else if data[offset] == 0 {
        (seq![], offset + 1)
    } else {
        let m = units_in(data.len() as int, offset + 1, data[offset] - 1);
        (utf16_lossy(units_at(data, offset + 1, m)), offset + 1 + 2 * m + 2)
    }
}

impl MtpClient {
    /// Reads an MTP string at `*offset` and moves `*offset` past it.
    pub fn parse_string(data: &[u8], offset: &mut usize) -> (r: String)
        requires
            data@.len() + 3 <= usize::MAX,
        ensures
            r@ == mtp_string(data@, *old(offset) as int).0,
            *final(offset) == mtp_string(data@, *old(offset) as int).1,
    {
        let len = data.len();
        if *offset >= len {
            return String::new();
        }
        let num_chars = data[*offset] as usize;
        *offset = *offset + 1;
        if num_chars == 0 {
            return String::new();
        }
        let start = *offset;
        let ghost m = units_in(len as int, start as int, num_chars - 1);
        let mut units: Vec<u16> = Vec::new();
        let mut k: usize = 0;
        while k < num_chars - 1
            invariant
                len == data@.len(),
                len + 3 <= usize::MAX,
                start <= len,
                k <= num_chars - 1,
                units@.len() == units_in(len as int, start as int, k as int),
                *offset == start + 2 * units@.len(),
                units@ == units_at(data@, start as int, units@.len() as int),
            decreases num_chars - 1 - k,
        {
            if *offset + 2 <= len {
                let u = read_le_u16(data, *offset);
                units.push(u);
                *offset = *offset + 2;
                assert(units@ =~= units_at(data@, start as int, units@.len() as int));
            }
            k = k + 1;
        }
        *offset = *offset + 2;
        from_utf16_lossy(units.as_slice())
    }

    /// A command container for operation `code` in transaction `tx_id`.
    pub fn command_container(code: u16, tx_id: u32, params: &[u32]) -> (r: Vec<u8>)
        requires
            12 + 4 * params@.len() <= u32::MAX,
        ensures
            r@ == command_bytes(code, tx_id, params@),
    {
        let n = params.len();
        let length = (12 + 4 * n) as u32;
        let mut cmd: Vec<u8> = Vec::new();
        push_le32(&mut cmd, length);
        push_le16(&mut cmd, 1);
        push_le16(&mut cmd, code);
        push_le32(&mut cmd, tx_id);
        let ghost head = cmd@;
        let mut i: usize = 0;
        while i < n
            invariant
                n == params@.len(),
                i <= n,
                cmd@ == head + params_bytes(params@.take(i as int)),
            decreases n - i,
        {
            assert(params@.take(i + 1).drop_last() =~= params@.take(i as int));
            push_le32(&mut cmd, params[i]);
            i = i + 1;
            assert(cmd@ =~= head + params_bytes(params@.take(i as int)));
        }
        assert(params@.take(n as int) =~= params@);
        assert(cmd@ =~= command_bytes(code, tx_id, params@));
        cmd
    }
}

/// What to do next in a transaction.
pub enum TransferAction {
    /// Read the next container (up to 16384 bytes).
    ReadPacket,
    /// Read up to this many more bytes of the current data container.
    ReadChunk(usize),
    /// The response container came, with this response code.
    Finished(u16),
}

/// The data phase of a transaction: the payload gathered so far and how many
/// bytes of the current data container are still to come.
pub struct Transfer {
    pub payload: Vec<u8>,
    pub remaining: usize,
}

/// The size of the next chunk to read while `rem` bytes are to come.
pub open spec fn chunk_size(rem: int) -> int {
    if rem <= 65536 {
        rem
    } else {
        65536
    }
}

/// The action that follows while `rem` bytes of a data container are to come.
pub open spec fn after_data(rem: int) -> TransferAction {
    if rem > 0 {
        TransferAction::ReadChunk(chunk_size(rem) as usize)
    } else {
        TransferAction::ReadPacket
    }
}

/// A container that cannot be taken apart as the exchange does it: a data
/// container whose length field is below the 12 bytes of its header.
pub open spec fn malformed_packet(buf: Seq<u8>) -> bool {
    buf.len() >= 12 && le_u16(buf, 4) == 2 && (le_u32(buf, 0) as int) < 12
}

impl Transfer {
    /// A transaction whose data phase has not begun.
    pub fn new() -> (r: Transfer)
        ensures
            r.payload@ == Seq::<u8>::empty(),
            r.remaining == 0,
    {
        Transfer { payload: Vec::new(), remaining: 0 }
    }

    /// Takes a container read while no data chunk is pending. One shorter than
    /// a header is skipped; a data container adds what it holds of its
    /// payload and leaves the rest of its length to be read; a response
    /// container ends the transaction; any other is skipped.
    pub fn on_packet(&mut self, buf: &[u8]) -> (r: TransferAction)
        requires
            old(self).remaining == 0,
            !malformed_packet(buf@),
        ensures
            buf@.len() < 12 ==> r == TransferAction::ReadPacket && *final(self) == *old(self),
            buf@.len() >= 12 && le_u16(buf@, 4) == 2 ==> {
                let end = if (le_u32(buf@, 0) as int) < buf@.len() {
                    le_u32(buf@, 0) as int
                } else {
                    buf@.len() as int
                };
                let rem = if buf@.len() < le_u32(buf@, 0) {
                    le_u32(buf@, 0) - buf@.len()
                } else {
                    0
                };
                &&& final(self).payload@ == old(self).payload@ + buf@.subrange(12, end)
                &&& final(self).remaining == rem
                &&& r == after_data(rem)
            },
            buf@.len() >= 12 && le_u16(buf@, 4) == 3 ==> r == TransferAction::Finished(
                le_u16(buf@, 6),
            ) && *final(self) == *old(self),
            buf@.len() >= 12 && le_u16(buf@, 4) != 2 && le_u16(buf@, 4) != 3 ==> r
                == TransferAction::ReadPacket && *final(self) == *old(self),
    {
        let n = buf.len();
        if n < 12 {
            return TransferAction::ReadPacket;
        }
        let container_len = read_le_u32(buf, 0) as usize;
        let container_type = read_le_u16(buf, 4);
        let code = read_le_u16(buf, 6);
        if container_type == 2 {
            let end = if container_len < n {
                container_len
            } else {
                n
            };
            let ghost before = self.payload@;
            let mut i: usize = 12;
            while i < end
                invariant
                    12 <= i <= end <= n,
                    n == buf@.len(),
                    self.payload@ == before + buf@.subrange(12, i as int),
                decreases end - i,
            {
                self.payload.push(buf[i]);
                i = i + 1;
                assert(self.payload@ =~= before + buf@.subrange(12, i as int));
            }
            self.remaining = if n < container_len {
                container_len - n
            } else {
                0
            };
            if self.remaining > 0 {
                let k = if self.remaining <= 65536 {
                    self.remaining
                } else {
                    65536
                };
                TransferAction::ReadChunk(k)
            } else {
                TransferAction::ReadPacket
            }
        } else if container_type == 3 {
            TransferAction::Finished(code)
        } else {
            TransferAction::ReadPacket
        }
    }

    /// Takes a chunk of the pending data container: its bytes join the
    /// payload and count against what is still to come.
    pub fn on_chunk(&mut self, chunk: &[u8]) -> (r: TransferAction)
        ensures
            final(self).payload@ == old(self).payload@ + chunk@,
            final(self).remaining == (if old(self).remaining > chunk@.len() {
                old(self).remaining - chunk@.len()
            } else {
                0
            }),
            r == after_data(final(self).remaining as int),
    {
        let m = chunk.len();
        let ghost before = self.payload@;
        let mut i: usize = 0;
        while i < m
            invariant
                i <= m,
                m == chunk@.len(),
                self.remaining == old(self).remaining,
                self.payload@ == before + chunk@.take(i as int),
            decreases m - i,
        {
            self.payload.push(chunk[i]);
            i = i + 1;
            assert(self.payload@ =~= before + chunk@.take(i as int));
        }
        assert(chunk@.take(m as int) =~= chunk@);
        self.remaining = if self.remaining > m {
            self.remaining - m
        } else {
            0
        };
        if self.remaining > 0 {
            let k = if self.remaining <= 65536 {
                self.remaining
            } else {
                65536
            };
            TransferAction::ReadChunk(k)
        } else {
            TransferAction::ReadPacket
        }
    }
}

/// A dataset that starts with a count and lists that many `u32` values; the
/// values that the data holds in full.
pub open spec fn u32_list(data: Seq<u8>) -> Seq<u32> {
    if data.len() < 4 {
        seq![]
    } else {
        let count = le_u32(data, 0) as int;
        let m = if count <= (data.len() - 4) / 4 {
            count
        } else {
            (data.len() - 4) / 4
        };
        Seq::new(m as nat, |i: int| le_u32(data, 4 + 4 * i))
    }
}

/// The object described by an ObjectInfo dataset: `None` where it is shorter
/// than 52 bytes; else its format (a folder is `0x3001`), size, parent and
/// file name.
pub open spec fn object_info(handle: u32, data: Seq<u8>) -> Option<MtpFileInfoView> {
    if data.len() < 52 {
        None
    } else {
        Some(
            MtpFileInfoView {
                handle,
                filename: mtp_string(data, 52).0,
                size: le_u32(data, 8),
                parent_handle: le_u32(data, 38),
                is_folder: le_u16(data, 4) == 0x3001,
            },
        )
    }
}

pub open spec fn opt_info_view(o: Option<MtpFileInfo>) -> Option<MtpFileInfoView> {
    match o {
        Some(i) => Some(i@),
        None => None,
    }
}

impl MtpClient {
    /// The `u32` values of a counted list (storage ids, object handles).
    pub fn parse_u32_list(data: &[u8]) -> (r: Vec<u32>)
        ensures
            r@ == u32_list(data@),
    {
        let n = data.len();
        let mut r: Vec<u32> = Vec::new();
        if n < 4 {
            return r;
        }
        let count = read_le_u32(data, 0) as usize;
        let mut i: usize = 0;
        while i < count && n - (4 + 4 * i) >= 4
            invariant
                n == data@.len(),
                n >= 4,
                count == le_u32(data@, 0),
                i <= count,
                4 + 4 * i <= n,
                r@ == Seq::new(i as nat, |k: int| le_u32(data@, 4 + 4 * k)),
            decreases count - i,
        {
            r.push(read_le_u32(data, 4 + 4 * i));
            i = i + 1;
            assert(r@ =~= Seq::new(i as nat, |k: int| le_u32(data@, 4 + 4 * k)));
        }
        assert(r@ =~= u32_list(data@));
        r
    }

    /// The object that an ObjectInfo dataset describes.
    pub fn parse_object_info(handle: u32, data: &[u8]) -> (r: Option<MtpFileInfo>)
        requires
            data@.len() + 3 <= usize::MAX,
        ensures
            opt_info_view(r) == object_info(handle, data@),
    {
        if data.len() < 52 {
            return None;
        }
        let format_code = read_le_u16(data, 4);
        let size = read_le_u32(data, 8);
        let parent = read_le_u32(data, 38);
        let mut offset: usize = 52;
        let filename = Self::parse_string(data, &mut offset);
        Some(
            MtpFileInfo {
                handle,
                filename,
                size,
                parent_handle: parent,
                is_folder: format_code == 0x3001,
            },
        )
    }

    /// The storage to list: the first one reported, else `0x00010001`.
    pub fn first_storage(ids: &Vec<u32>) -> (r: u32)
        ensures
            r == (if ids@.len() > 0 {
                ids@[0]
            } else {
                0x00010001u32
            }),
    {
        if ids.len() > 0 {
            ids[0]
        } else {
            0x00010001
        }
    }
}

pub open spec fn infos_view(objs: Seq<MtpFileInfo>) -> Seq<MtpFileInfoView> {
    objs.map_values(|o: MtpFileInfo| o@)
}

/// The index of the first object, from `i` on, with handle `h`.
pub open spec fn find_handle(objs: Seq<MtpFileInfoView>, h: u32, i: int) -> Option<int>
    decreases objs.len() - i,
{
    if i < 0 || i >= objs.len() {
        None
    } else if objs[i].handle == h {
        Some(i)
    } else {
        find_handle(objs, h, i + 1)
    }
}

/// The objects reached from `curr` by following parents, nearest first (as
/// indices): the walk stops at handle 0, at a handle not listed, and at a
/// handle already reached. It also stops after more steps than there are
/// objects, which never cuts a walk short (see `lemma_walk_step`).
pub open spec fn chain_from(objs: Seq<MtpFileInfoView>, curr: u32, seen: Seq<u32>) -> Seq<int>
    decreases objs.len() + 1 - seen.len(),
{
    if seen.len() > objs.len() || curr == 0 || seen.contains(curr) {
        seq![]
    } else {
        match find_handle(objs, curr, 0) {
            None => seq![],
            Some(i) => seq![i] + chain_from(objs, objs[i].parent_handle, seen.push(curr)),
        }
    }
}

/// The folders that hold an object whose parent is `parent`, outermost first.
pub open spec fn ancestry(objs: Seq<MtpFileInfoView>, parent: u32) -> Seq<int> {
    let c = chain_from(objs, parent, seq![]);
    Seq::new(c.len(), |i: int| c[c.len() - 1 - i])
}

/// The name of the folder that holds the notebooks.
pub open spec fn notebooks_name(lower: Seq<char>) -> bool {
    lower == ".notebooks"@ || lower == "notebooks"@
}

pub open spec fn lower_name(objs: Seq<MtpFileInfoView>, i: int) -> Seq<char> {
    crate::pattern::lowercase(objs[i].filename)
}

/// Some folder of `a` holds the notebooks.
pub open spec fn in_notebooks(objs: Seq<MtpFileInfoView>, a: Seq<int>) -> bool {
    exists|k: int| 0 <= k < a.len() && notebooks_name(#[trigger] lower_name(objs, a[k]))
}

/// Some folder of `a` is `thumbnails`.
pub open spec fn in_thumbnails(objs: Seq<MtpFileInfoView>, a: Seq<int>) -> bool {
    exists|k: int| 0 <= k < a.len() && #[trigger] lower_name(objs, a[k]) == "thumbnails"@
}

/// A folder that holds templates, system files or deleted notebooks.
pub open spec fn system_name(lower: Seq<char>) -> bool {
    contains(lower, "template"@) || lower == "system"@ || lower == ".trash"@
}

/// Some folder of `a` holds templates, system files or deleted notebooks.
pub open spec fn in_system(objs: Seq<MtpFileInfoView>, a: Seq<int>) -> bool {
    exists|k: int| 0 <= k < a.len() && system_name(#[trigger] lower_name(objs, a[k]))
}

/// The folder name of a book's annotations rather than a notebook's.
pub open spec fn ebook_folder(name: Seq<char>) -> bool {
    contains(name, "!!EBOK!!"@) || starts_with(name, "B0"@)
}

/// The names of the folders of `a` below the notebooks folder, outermost
/// first; `passed` says whether the notebooks folder lies above `a`.
pub open spec fn segments(objs: Seq<MtpFileInfoView>, a: Seq<int>, passed: bool) -> Seq<Seq<char>>
    decreases a.len(),
{
    if a.len() == 0 {
        seq![]
    } else if notebooks_name(lower_name(objs, a[0])) {
        segments(objs, a.drop_first(), true)
    } else if passed {
        seq![objs[a[0]].filename] + segments(objs, a.drop_first(), true)
    } else {
        segments(objs, a.drop_first(), false)
    }
}

/// A character that a path component cannot hold.
pub open spec fn path_unsafe(c: char) -> bool {
    c == '/' || c == '\\' || c == ':' || c == '*' || c == '?' || c == '"' || c == '<' || c == '>'
        || c == '|'
}

/// `s` with each character that a path component cannot hold replaced by `_`.
pub open spec fn path_safe(s: Seq<char>) -> Seq<char> {
    Seq::new(
        s.len(),
        |i: int|
            if path_unsafe(s[i]) {
                '_'
            } else {
                s[i]
            },
    )
}

/// `base` joined with each of `dirs`, made safe, in order.
pub open spec fn join_all(base: Seq<char>, dirs: Seq<Seq<char>>) -> Seq<char>
    decreases dirs.len(),
{
    if dirs.len() == 0 {
        base
    } else {
        crate::paths::join_path(join_all(base, dirs.drop_last()), path_safe(dirs.last()))
    }
}

/// Where a notebook file with handle `h`, held by the folders `a`, is copied
/// to under `nb_dir`: the folders between the notebooks folder and its own
/// folder become directories, and its own folder (else `notebook_{h:x}`)
/// names the file.
pub open spec fn notebook_target(objs: Seq<MtpFileInfoView>, a: Seq<int>, h: u32, nb_dir: Seq<char>) -> Seq<
    char,
> {
    let segs = segments(objs, a, false);
    let name = if segs.len() > 0 {
        segs.last()
    } else {
        "notebook_"@ + hex_min(h as nat)
    };
    let dirs = if segs.len() > 0 {
        segs.drop_last()
    } else {
        seq![]
    };
    crate::paths::join_path(join_all(nb_dir, dirs), path_safe(name) + ".nbk"@)
}

/// Where object `k` is copied to under `out`, if it is copied: the clippings
/// file and the vocabulary database to their usual places, images in a
/// `thumbnails` folder under the notebooks folder to `.notebooks/thumbnails`,
/// and notebook files under the notebooks folder, outside templates, system
/// folders, the trash and books' annotation folders, to `.notebooks`.
pub open spec fn download_target(objs: Seq<MtpFileInfoView>, k: int, out: Seq<char>) -> Option<Seq<char>> {
    let o = objs[k];
    let l = lower_name(objs, k);
    let nb_dir = crate::paths::join_path(out, ".notebooks"@);
    if l == "my clippings.txt"@ {
        Some(crate::paths::join_path(crate::paths::join_path(out, "documents"@), "My Clippings.txt"@))
    } else if l == "vocab.db"@ {
        Some(
            crate::paths::join_path(
                crate::paths::join_path(crate::paths::join_path(out, "system"@), "vocabulary"@),
                "vocab.db"@,
            ),
        )
    } else if ends_with(l, ".png"@) || ends_with(l, ".jpg"@) {
        let a = ancestry(objs, o.parent_handle);
        if in_notebooks(objs, a) && in_thumbnails(objs, a) {
            Some(crate::paths::join_path(crate::paths::join_path(nb_dir, "thumbnails"@), o.filename))
        } else {
            None
        }
    } else if l == "nbk"@ || ends_with(l, ".nbk"@) {
        let a = ancestry(objs, o.parent_handle);
        let parent_name = if a.len() > 0 {
            objs[a.last()].filename
        } else {
            seq![]
        };
        if in_notebooks(objs, a) && !in_system(objs, a) && !ebook_folder(parent_name) {
            Some(notebook_target(objs, a, o.handle, nb_dir))
        } else {
            None
        }
    } else {
        None
    }
}

/// The objects among the first `n` to copy, in order, each with its destination.
pub open spec fn download_plan(objs: Seq<MtpFileInfoView>, out: Seq<char>, n: int) -> Seq<(u32, Seq<char>)>
    decreases n,
{
    if n <= 0 {
        seq![]
    } else {
        let prev = download_plan(objs, out, n - 1);
        match download_target(objs, n - 1, out) {
            Some(p) => prev.push((objs[n - 1].handle, p)),
            None => prev,
        }
    }
}

pub open spec fn ints(v: Seq<usize>) -> Seq<int> {
    v.map_values(|x: usize| x as int)
}

pub open spec fn plan_view(v: Seq<(u32, String)>) -> Seq<(u32, Seq<char>)> {
    v.map_values(|p: (u32, String)| (p.0, p.1@))
}

proof fn lemma_ints_push(v: Seq<usize>, x: usize)
    ensures
        ints(v.push(x)) == ints(v).push(x as int),
{
    assert(ints(v.push(x)) =~= ints(v).push(x as int));
}

fn find_handle_of(objs: &Vec<MtpFileInfo>, h: u32) -> (r: Option<usize>)
    ensures
        match r {
            Some(i) => find_handle(infos_view(objs@), h, 0) == Some(i as int) && i < objs@.len(),
            None => find_handle(infos_view(objs@), h, 0) is None,
        },
{
    let ghost v = infos_view(objs@);
    let mut i: usize = 0;
    while i < objs.len()
        invariant
            i <= objs@.len(),
            v == infos_view(objs@),
            find_handle(v, h, 0) == find_handle(v, h, i as int),
        decreases objs@.len() - i,
    {
        assert(v[i as int] == objs@[i as int]@);
        if objs[i].handle == h {
            return Some(i);
        }
        i = i + 1;
    }
    None
}

fn holds_u32(v: &Vec<u32>, x: u32) -> (r: bool)
    ensures
        r == v@.contains(x),
{
    let mut i: usize = 0;
    while i < v.len()
        invariant
            i <= v@.len(),
            forall|k: int| 0 <= k < i ==> v@[k] != x,
        decreases v@.len() - i,
    {
        if v[i] == x {
            assert(v@[i as int] == x);
            return true;
        }
        i = i + 1;
    }
    false
}

/// The parents reached from `start`, nearest first.
fn chain_of(objs: &Vec<MtpFileInfo>, start: u32) -> (r: Vec<usize>)
    ensures
        ints(r@) == chain_from(infos_view(objs@), start, seq![]),
        forall|k: int| 0 <= k < r@.len() ==> r@[k] < objs@.len(),
{
    let ghost v = infos_view(objs@);
    let mut chain: Vec<usize> = Vec::new();
    let mut seen: Vec<u32> = Vec::new();
    let mut curr = start;
    assert(ints(chain@) =~= Seq::<int>::empty());
    loop
        invariant
            v == infos_view(objs@),
            v.len() == objs@.len(),
            chain_from(v, start, seq![]) == ints(chain@) + chain_from(v, curr, seen@),
            forall|k: int| 0 <= k < chain@.len() ==> chain@[k] < objs@.len(),
            seen@.len() <= objs@.len() + 1,
        ensures
            chain_from(v, start, seq![]) == ints(chain@),
            forall|k: int| 0 <= k < chain@.len() ==> chain@[k] < objs@.len(),
        decreases objs@.len() + 1 - seen@.len(),
    {
        if seen.len() > objs.len() || curr == 0 || holds_u32(&seen, curr) {
            assert(chain_from(v, curr, seen@) =~= Seq::<int>::empty());
            assert(ints(chain@) + Seq::<int>::empty() =~= ints(chain@));
            break;
        }
        match find_handle_of(objs, curr) {
            None => {
                assert(ints(chain@) + Seq::<int>::empty() =~= ints(chain@));
                break;
            },
            Some(i) => {
                assert(v[i as int] == objs@[i as int]@);
                let ghost rest = chain_from(v, objs@[i as int].parent_handle, seen@.push(curr));
                assert(chain_from(v, curr, seen@) == seq![i as int] + rest);
                proof {
                    lemma_ints_push(chain@, i);
                }
                assert(ints(chain@) + (seq![i as int] + rest) =~= ints(chain@).push(i as int) + rest);
                chain.push(i);
                seen.push(curr);
                curr = objs[i].parent_handle;
            },
        }
    }
    chain
}

/// The folders holding an object whose parent is `parent`, outermost first.
fn ancestry_of(objs: &Vec<MtpFileInfo>, parent: u32) -> (r: Vec<usize>)
    ensures
        ints(r@) == ancestry(infos_view(objs@), parent),
        forall|k: int| 0 <= k < r@.len() ==> r@[k] < objs@.len(),
{
    let c = chain_of(objs, parent);
    let ghost ci = ints(c@);
    let n = c.len();
    let mut r: Vec<usize> = Vec::new();
    let mut i: usize = 0;
    while i < n
        invariant
            n == c@.len(),
            ci == ints(c@),
            i <= n,
            forall|k: int| 0 <= k < c@.len() ==> c@[k] < objs@.len(),
            forall|k: int| 0 <= k < r@.len() ==> r@[k] < objs@.len(),
            ints(r@) == Seq::new(i as nat, |k: int| ci[n - 1 - k]),
        decreases n - i,
    {
        proof {
            lemma_ints_push(r@, c@[n - 1 - i]);
        }
        r.push(c[n - 1 - i]);
        i = i + 1;
        assert(ints(r@) =~= Seq::new(i as nat, |k: int| ci[n - 1 - k]));
    }
    r
}

fn lower_name_of(objs: &Vec<MtpFileInfo>, i: usize) -> (r: Vec<char>)
    requires
        i < objs@.len(),
    ensures
        r@ == lower_name(infos_view(objs@), i as int),
{
    assert(infos_view(objs@)[i as int] == objs@[i as int]@);
    chars_of(crate::pattern::to_lowercase(objs[i].filename.as_str()).as_str())
}

fn is_notebooks_name(l: &[char]) -> (r: bool)
    ensures
        r == notebooks_name(l@),
{
    crate::text::chars_eq(l, chars_of(".notebooks").as_slice()) || crate::text::chars_eq(
        l,
        chars_of("notebooks").as_slice(),
    )
}

fn is_system_name(l: &[char]) -> (r: bool)
    ensures
        r == system_name(l@),
{
    crate::text::contains_seq(l, chars_of("template").as_slice()) || crate::text::chars_eq(
        l,
        chars_of("system").as_slice(),
    ) || crate::text::chars_eq(l, chars_of(".trash").as_slice())
}

fn any_notebooks(objs: &Vec<MtpFileInfo>, a: &Vec<usize>) -> (r: bool)
    requires
        forall|k: int| 0 <= k < a@.len() ==> a@[k] < objs@.len(),
    ensures
        r == in_notebooks(infos_view(objs@), ints(a@)),
{
    let ghost v = infos_view(objs@);
    let mut k: usize = 0;
    while k < a.len()
        invariant
            k <= a@.len(),
            v == infos_view(objs@),
            forall|m: int| 0 <= m < a@.len() ==> a@[m] < objs@.len(),
            forall|m: int| 0 <= m < k ==> !notebooks_name(#[trigger] lower_name(v, ints(a@)[m])),
        decreases a@.len() - k,
    {
        let l = lower_name_of(objs, a[k]);
        assert(ints(a@)[k as int] == a@[k as int] as int);
        if is_notebooks_name(l.as_slice()) {
            return true;
        }
        k = k + 1;
    }
    false
}

fn any_thumbnails(objs: &Vec<MtpFileInfo>, a: &Vec<usize>) -> (r: bool)
    requires
        forall|k: int| 0 <= k < a@.len() ==> a@[k] < objs@.len(),
    ensures
        r == in_thumbnails(infos_view(objs@), ints(a@)),
{
    let ghost v = infos_view(objs@);
    let mut k: usize = 0;
    while k < a.len()
        invariant
            k <= a@.len(),
            v == infos_view(objs@),
            forall|m: int| 0 <= m < a@.len() ==> a@[m] < objs@.len(),
            forall|m: int| 0 <= m < k ==> #[trigger] lower_name(v, ints(a@)[m]) != "thumbnails"@,
        decreases a@.len() - k,
    {
        let l = lower_name_of(objs, a[k]);
        assert(ints(a@)[k as int] == a@[k as int] as int);
        if crate::text::chars_eq(l.as_slice(), chars_of("thumbnails").as_slice()) {
            return true;
        }
        k = k + 1;
    }
    false
}

fn any_system(objs: &Vec<MtpFileInfo>, a: &Vec<usize>) -> (r: bool)
    requires
        forall|k: int| 0 <= k < a@.len() ==> a@[k] < objs@.len(),
    ensures
        r == in_system(infos_view(objs@), ints(a@)),
{
    let ghost v = infos_view(objs@);
    let mut k: usize = 0;
    while k < a.len()
        invariant
            k <= a@.len(),
            v == infos_view(objs@),
            forall|m: int| 0 <= m < a@.len() ==> a@[m] < objs@.len(),
            forall|m: int| 0 <= m < k ==> !system_name(#[trigger] lower_name(v, ints(a@)[m])),
        decreases a@.len() - k,
    {
        let l = lower_name_of(objs, a[k]);
        assert(ints(a@)[k as int] == a@[k as int] as int);
        if is_system_name(l.as_slice()) {
            return true;
        }
        k = k + 1;
    }
    false
}

/// The folder names below the notebooks folder, outermost first.
fn segments_of(objs: &Vec<MtpFileInfo>, a: &Vec<usize>) -> (r: Vec<Vec<char>>)
    requires
        forall|k: int| 0 <= k < a@.len() ==> a@[k] < objs@.len(),
    ensures
        crate::text::seqs_view(r@) == segments(infos_view(objs@), ints(a@), false),
{
    let ghost v = infos_view(objs@);
    let ghost ai = ints(a@);
    let mut out: Vec<Vec<char>> = Vec::new();
    let mut passed = false;
    let mut i: usize = 0;
    assert(ai.skip(0) =~= ai);
    assert(crate::text::seqs_view(out@) =~= Seq::<Seq<char>>::empty());
    while i < a.len()
        invariant
            i <= a@.len(),
            v == infos_view(objs@),
            ai == ints(a@),
            forall|k: int| 0 <= k < a@.len() ==> a@[k] < objs@.len(),
            segments(v, ai, false) == crate::text::seqs_view(out@) + segments(
                v,
                ai.skip(i as int),
                passed,
            ),
        decreases a@.len() - i,
    {
        assert(ai.skip(i as int)[0] == a@[i as int] as int);
        assert(ai.skip(i as int).drop_first() =~= ai.skip(i + 1));
        let o = a[i];
        let l = lower_name_of(objs, o);
        assert(v[o as int] == objs@[o as int]@);
        if is_notebooks_name(l.as_slice()) {
            passed = true;
        } else if passed {
            let name = chars_of(objs[o].filename.as_str());
            let ghost before = crate::text::seqs_view(out@);
            out.push(name);
            assert(crate::text::seqs_view(out@) =~= before.push(name@));
            assert(before + (seq![name@] + segments(v, ai.skip(i + 1), true)) =~= before.push(
                name@,
            ) + segments(v, ai.skip(i + 1), true));
        }
        i = i + 1;
    }
    assert(segments(v, ai.skip(i as int), passed) =~= Seq::<Seq<char>>::empty()) by {
        assert(ai.skip(i as int).len() == 0);
    }
    assert(crate::text::seqs_view(out@) + Seq::<Seq<char>>::empty() =~= crate::text::seqs_view(
        out@,
    ));
    out
}

/// `s` with each character that a path component cannot hold replaced by `_`.
fn path_safe_of(s: &[char]) -> (r: Vec<char>)
    ensures
        r@ == path_safe(s@),
{
    let mut r: Vec<char> = Vec::new();
    let mut i: usize = 0;
    while i < s.len()
        invariant
            i <= s@.len(),
            r@ == Seq::new(
                i as nat,
                |k: int|
                    if path_unsafe(s@[k]) {
                        '_'
                    } else {
                        s@[k]
                    },
            ),
        decreases s@.len() - i,
    {
        let c = s[i];
        let unsafe_char = c == '/' || c == '\\' || c == ':' || c == '*' || c == '?' || c == '"'
            || c == '<' || c == '>' || c == '|';
        r.push(
            if unsafe_char {
                '_'
            } else {
                c
            },
        );
        i = i + 1;
        assert(r@ =~= Seq::new(
            i as nat,
            |k: int|
                if path_unsafe(s@[k]) {
                    '_'
                } else {
                    s@[k]
                },
        ));
    }
    r
}

/// Where a notebook file is copied to.
fn notebook_target_of(objs: &Vec<MtpFileInfo>, a: &Vec<usize>, h: u32, nb_dir: &str) -> (r: String)
    requires
        forall|k: int| 0 <= k < a@.len() ==> a@[k] < objs@.len(),
    ensures
        r@ == notebook_target(infos_view(objs@), ints(a@), h, nb_dir@),
{
    let ghost v = infos_view(objs@);
    let segs = segments_of(objs, a);
    let ghost sv = crate::text::seqs_view(segs@);
    let n = segs.len();
    let name: Vec<char> = if n > 0 {
        assert(sv.last() == segs@[n - 1]@);
        crate::text::copy_range(segs[n - 1].as_slice(), 0, segs[n - 1].len())
    } else {
        let mut b = chars_of("notebook_");
        push_hex(&mut b, h as u64);
        b
    };
    proof {
        if n > 0 {
            assert(segs@[n - 1]@.subrange(0, segs@[n - 1]@.len() as int) =~= segs@[n - 1]@);
        }
    }
    let ndirs: usize = if n > 0 {
        n - 1
    } else {
        0
    };
    let ghost dirs = if n > 0 {
        sv.drop_last()
    } else {
        Seq::<Seq<char>>::empty()
    };
    let mut p = String::from_str(nb_dir);
    let mut i: usize = 0;
    assert(dirs.take(0) =~= Seq::<Seq<char>>::empty());
    while i < ndirs
        invariant
            i <= ndirs,
            ndirs == dirs.len(),
            n == segs@.len(),
            sv == crate::text::seqs_view(segs@),
            dirs == (if n > 0 {
                sv.drop_last()
            } else {
                Seq::<Seq<char>>::empty()
            }),
            p@ == join_all(nb_dir@, dirs.take(i as int)),
        decreases ndirs - i,
    {
        assert(dirs.take(i + 1).drop_last() =~= dirs.take(i as int));
        assert(dirs[i as int] == segs@[i as int]@);
        let safe = path_safe_of(segs[i].as_slice());
        let safe = string_from_chars(safe.as_slice());
        p = crate::paths::join_path_str(p.as_str(), safe.as_str());
        i = i + 1;
    }
    assert(dirs.take(ndirs as int) =~= dirs);
    let mut file = path_safe_of(name.as_slice());
    push_str(&mut file, ".nbk");
    let file = string_from_chars(file.as_slice());
    crate::paths::join_path_str(p.as_str(), file.as_str())
}

/// Where object `k` is copied to under `out`, if it is copied.
fn download_target_of(objs: &Vec<MtpFileInfo>, k: usize, out: &str) -> (r: Option<String>)
    requires
        k < objs@.len(),
    ensures
        r.deep_view() == download_target(infos_view(objs@), k as int, out@),
{
    let ghost v = infos_view(objs@);
    assert(v[k as int] == objs@[k as int]@);
    let l = lower_name_of(objs, k);
    let nb_dir = crate::paths::join_path_str(out, ".notebooks");
    if crate::text::chars_eq(l.as_slice(), chars_of("my clippings.txt").as_slice()) {
        let d = crate::paths::join_path_str(out, "documents");
        return Some(crate::paths::join_path_str(d.as_str(), "My Clippings.txt"));
    }
    if crate::text::chars_eq(l.as_slice(), chars_of("vocab.db").as_slice()) {
        let d = crate::paths::join_path_str(out, "system");
        let d = crate::paths::join_path_str(d.as_str(), "vocabulary");
        return Some(crate::paths::join_path_str(d.as_str(), "vocab.db"));
    }
    let o = &objs[k];
    if crate::text::ends_with_chars(l.as_slice(), chars_of(".png").as_slice())
        || crate::text::ends_with_chars(l.as_slice(), chars_of(".jpg").as_slice()) {
        let a = ancestry_of(objs, o.parent_handle);
        if any_notebooks(objs, &a) && any_thumbnails(objs, &a) {
            let t = crate::paths::join_path_str(nb_dir.as_str(), "thumbnails");
            return Some(crate::paths::join_path_str(t.as_str(), o.filename.as_str()));
        }
        return None;
    }
    if crate::text::chars_eq(l.as_slice(), chars_of("nbk").as_slice())
        || crate::text::ends_with_chars(l.as_slice(), chars_of(".nbk").as_slice()) {
        let a = ancestry_of(objs, o.parent_handle);
        let na = a.len();
        let parent_name = if na > 0 {
            assert(ints(a@).last() == a@[na - 1] as int);
            assert(v[a@[na - 1] as int] == objs@[a@[na - 1] as int]@);
            chars_of(objs[a[na - 1]].filename.as_str())
        } else {
            Vec::new()
        };
        let ebook = crate::text::contains_seq(parent_name.as_slice(), chars_of("!!EBOK!!").as_slice())
            || crate::text::starts_with_chars(parent_name.as_slice(), chars_of("B0").as_slice());
        if any_notebooks(objs, &a) && !any_system(objs, &a) && !ebook {
            return Some(notebook_target_of(objs, &a, o.handle, nb_dir.as_str()));
        }
        return None;
    }
    None
}

impl MtpClient {
    /// The objects to copy, in the order listed, each with where it is
    /// copied to under `out_dir`.
    pub fn plan_downloads(objs: &Vec<MtpFileInfo>, out_dir: &str) -> (r: Vec<(u32, String)>)
        ensures
            plan_view(r@) == download_plan(infos_view(objs@), out_dir@, objs@.len() as int),
    {
        let ghost v = infos_view(objs@);
        let mut r: Vec<(u32, String)> = Vec::new();
        let mut k: usize = 0;
        assert(plan_view(r@) =~= Seq::<(u32, Seq<char>)>::empty());
        while k < objs.len()
            invariant
                k <= objs@.len(),
                v == infos_view(objs@),
                plan_view(r@) == download_plan(v, out_dir@, k as int),
            decreases objs@.len() - k,
        {
            assert(v[k as int] == objs@[k as int]@);
            match download_target_of(objs, k, out_dir) {
                Some(p) => {
                    let ghost before = r@;
                    r.push((objs[k].handle, p));
                    assert(plan_view(r@) =~= plan_view(before).push((objs@[k as int].handle, p@)));
                },
                None => {},
            }
            k = k + 1;
        }
        r
    }
}

/// A line that the Windows copy script writes.
pub enum ScriptLine {
    /// `PROGRESS:step:message:percent:item`.
    Progress(SyncProgress),
    /// `DEBUG:...`.
    Debug,
    /// `ERROR:message`, with the message.
    Error(String),
    /// Anything else.
    Other,
}

/// The fields of a trimmed `PROGRESS:` line, split at its first four `:`:
/// step, message, percentage (50 where it is not a number) and, where
/// present and not empty, the item.
pub open spec fn progress_fields(t: Seq<char>) -> Option<(Seq<char>, Seq<char>, u32, Option<Seq<char>>)> {
    let parts = crate::text::splitn_char(t, 5, ':');
    if parts.len() >= 4 {
        Some(
            (
                parts[1],
                parts[2],
                match crate::text::parse_u32(parts[3]) {
                    Some(v) => v,
                    None => 50,
                },
                if parts.len() >= 5 && parts[4].len() > 0 {
                    Some(parts[4])
                } else {
                    None
                },
            ),
        )
    } else {
        None
    }
}

/// A line of the Windows copy script stripped of surrounding blanks and
/// read by its prefix.
pub open spec fn script_line_kind(line: Seq<char>) -> int {
    let t = crate::text::trim(line);
    if starts_with(t, "PROGRESS:"@) {
        if progress_fields(t) is Some {
            0
        } else {
            3
        }
    } else if starts_with(t, "DEBUG:"@) {
        1
    } else if starts_with(t, "ERROR:"@) {
        2
    } else {
        3
    }
}

/// The message of a trimmed `ERROR:` line: the rest, every leading
/// `ERROR:` removed, trimmed.
pub open spec fn error_message(t: Seq<char>) -> Seq<char> {
    crate::text::trim(crate::text::strip_prefix_all(t, "ERROR:"@))
}

/// A line of the script's error output that explains the failure: it
/// mentions Kindle or an error, and is not part of PowerShell's own report.
pub open spec fn explains_failure(t: Seq<char>) -> bool {
    &&& contains(t, "Kindle"@) || contains(t, "エラー"@)
    &&& !starts_with(t, "+"@)
    &&& !starts_with(t, "~"@)
    &&& !contains(t, "CategoryInfo"@)
    &&& !contains(t, "FullyQualifiedErrorId"@)
    &&& !contains(t, "ErrorActionPreference"@)
}

/// The first line of `ls`, trimmed, that explains the failure.
pub open spec fn first_explaining(ls: Seq<Seq<char>>) -> Option<Seq<char>>
    decreases ls.len(),
{
    if ls.len() == 0 {
        None
    } else if explains_failure(crate::text::trim(ls[0])) {
        Some(crate::text::trim(ls[0]))
    } else {
        first_explaining(ls.drop_first())
    }
}

/// The message given when the script fails without a reason.
pub const PULL_FAILED_MESSAGE: &'static str = "Kindle端末からデータを取得できませんでした。Kindle端末の画面ロックを解除してUSB接続を確認してください。";

/// Why the Windows copy script failed: its last `ERROR:` message, else the
/// first line of its error output that explains the failure, else a general
/// message.
pub open spec fn failure_detail(last_error: Seq<char>, stderr: Seq<char>) -> Seq<char> {
    if last_error.len() > 0 {
        last_error
    } else {
        match first_explaining(crate::text::lines(stderr)) {
            Some(m) => if m.len() > 0 {
                m
            } else {
                PULL_FAILED_MESSAGE@
            },
            None => PULL_FAILED_MESSAGE@,
        }
    }
}

/// The progress of copying file `idx` of `total`: 25% to 65% in steps.
pub open spec fn download_percent(idx: int, total: int) -> int {
    25 + (idx * 40) / (if total > 1 {
        total
    } else {
        1
    })
}

impl MtpClient {
    /// Reads a line that the Windows copy script wrote.
    pub fn classify_script_line(line: &str) -> (r: ScriptLine)
        ensures
            script_line_kind(line@) == 0 ==> (r matches ScriptLine::Progress(p) && progress_fields(
                crate::text::trim(line@),
            ) == Some((p.step@, p.message@, p.percentage, p.current_item.deep_view()))),
            script_line_kind(line@) == 1 ==> r is Debug,
            script_line_kind(line@) == 2 ==> (r matches ScriptLine::Error(e) && e@ == error_message(
                crate::text::trim(line@),
            )),
            script_line_kind(line@) == 3 ==> r is Other,
    {
        let c = chars_of(line);
        let (a, z) = crate::text::trim_bounds(c.as_slice(), 0, c.len());
        assert(c@.subrange(0, c@.len() as int) =~= c@);
        let t = crate::text::copy_range(c.as_slice(), a, z);
        if crate::text::starts_with_chars(t.as_slice(), chars_of("PROGRESS:").as_slice()) {
            let parts = crate::text::splitn_chars(t.as_slice(), 5, ':');
            let ghost pv = crate::text::seqs_view(parts@);
            if parts.len() >= 4 {
                assert(pv[1] == parts@[1]@ && pv[2] == parts@[2]@ && pv[3] == parts@[3]@);
                let pct = match crate::text::parse_u32_chars(parts[3].as_slice()) {
                    Some(v) => v,
                    None => 50,
                };
                let item = if parts.len() >= 5 && parts[4].len() > 0 {
                    assert(pv[4] == parts@[4]@);
                    Some(string_from_chars(parts[4].as_slice()))
                } else {
                    proof {
                        if parts@.len() >= 5 {
                            assert(pv[4] == parts@[4]@);
                        }
                    }
                    None
                };
                return ScriptLine::Progress(
                    SyncProgress {
                        step: string_from_chars(parts[1].as_slice()),
                        message: string_from_chars(parts[2].as_slice()),
                        percentage: pct,
                        current_item: item,
                    },
                );
            }
            return ScriptLine::Other;
        }
        if crate::text::starts_with_chars(t.as_slice(), chars_of("DEBUG:").as_slice()) {
            return ScriptLine::Debug;
        }
        if crate::text::starts_with_chars(t.as_slice(), chars_of("ERROR:").as_slice()) {
            let n = t.len();
            let b = crate::text::strip_prefix_all_bounds(t.as_slice(), 0, n, chars_of("ERROR:").as_slice());
            assert(t@.subrange(0, n as int) =~= t@);
            let (x, y) = crate::text::trim_bounds(t.as_slice(), b, n);
            return ScriptLine::Error(string_from_chars(crate::text::copy_range(t.as_slice(), x, y).as_slice()));
        }
        ScriptLine::Other
    }

    /// Why the Windows copy script failed, from its last `ERROR:` message
    /// and its error output.
    pub fn failure_detail(last_error: &str, stderr: &str) -> (r: String)
        ensures
            r@ == failure_detail(last_error@, stderr@),
    {
        let le = chars_of(last_error);
        if le.len() > 0 {
            return String::from_str(last_error);
        }
        let t = chars_of(stderr);
        let n = t.len();
        let mut found: Option<Vec<char>> = None;
        let mut pos: usize = 0;
        while pos < n
            invariant_except_break
                found is None,
                first_explaining(crate::text::lines(t@)) == first_explaining(
                    crate::text::lines_from(t@, pos as int),
                ),
            invariant
                n == t@.len(),
                pos <= n,
            ensures
                first_explaining(crate::text::lines(t@)) == crate::text::opt_chars(found),
            decreases n - pos,
        {
            let (end, next) = crate::text::next_line(t.as_slice(), pos);
            let ghost line = t@.subrange(pos as int, end as int);
            let ghost tail = crate::text::lines_from(t@, next as int);
            assert((seq![line] + tail)[0] == line);
            assert((seq![line] + tail).drop_first() =~= tail);
            let (a, z) = crate::text::trim_bounds(t.as_slice(), pos, end);
            let l = crate::text::copy_range(t.as_slice(), a, z);
            let ok = (crate::text::contains_seq(l.as_slice(), chars_of("Kindle").as_slice())
                || crate::text::contains_seq(l.as_slice(), chars_of("エラー").as_slice()))
                && !crate::text::starts_with_chars(l.as_slice(), chars_of("+").as_slice())
                && !crate::text::starts_with_chars(l.as_slice(), chars_of("~").as_slice())
                && !crate::text::contains_seq(l.as_slice(), chars_of("CategoryInfo").as_slice())
                && !crate::text::contains_seq(l.as_slice(), chars_of("FullyQualifiedErrorId").as_slice())
                && !crate::text::contains_seq(l.as_slice(), chars_of("ErrorActionPreference").as_slice());
            if ok {
                found = Some(l);
                break;
            }
            pos = next;
        }
        match found {
            Some(m) => if m.len() > 0 {
                string_from_chars(m.as_slice())
            } else {
                String::from_str(PULL_FAILED_MESSAGE)
            },
            None => String::from_str(PULL_FAILED_MESSAGE),
        }
    }

    /// The progress report for copying file `idx` (from 0) of `total` to `dest`.
    pub fn download_progress(idx: usize, total: usize, dest: &str) -> (r: SyncProgress)
        requires
            idx < total,
            idx * 40 <= u32::MAX,
            total <= u32::MAX,
        ensures
            r.step@ == "downloading"@,
            r.message@ == "ファイルを転送中 ("@ + crate::text::decimal_text((idx + 1) as nat) + "/"@
                + crate::text::decimal_text(total as nat) + "): "@ + (match crate::paths::path_file_name(
                dest@,
            ) {
                Some(n) => n,
                None => seq![],
            }),
            r.percentage == download_percent(idx as int, total as int),
            r.current_item.deep_view() == Some(
                match crate::paths::path_file_name(dest@) {
                    Some(n) => n,
                    None => seq![],
                },
            ),
    {
        let filename = match crate::paths::file_name(dest) {
            Some(n) => n,
            None => String::new(),
        };
        let div: u32 = if total > 1 {
            total as u32
        } else {
            1
        };
        assert((idx as int * 40) / (div as int) < 40) by (nonlinear_arith)
            requires
                div >= 1,
                idx < div,
        ;
        let pct = 25 + (idx as u32 * 40) / div;
        let mut m = chars_of("ファイルを転送中 (");
        push_decimal(&mut m, (idx + 1) as u64);
        push_str(&mut m, "/");
        push_decimal(&mut m, total as u64);
        push_str(&mut m, "): ");
        push_str(&mut m, filename.as_str());
        SyncProgress {
            step: String::from_str("downloading"),
            message: string_from_chars(m.as_slice()),
            percentage: pct,
            current_item: Some(filename),
        }
    }

    /// Whether a GetObject transaction gave the file: its response is OK
    /// (`0x2001`) or it returned data.
    pub fn object_received(code: u16, data: &[u8]) -> (r: bool)
        ensures
            r == (code == 0x2001 || data@.len() > 0),
    {
        code == 0x2001 || data.len() > 0
    }

    /// The error for a GetObject transaction that gave nothing:
    /// `GetObject 0x{handle:08x} failed with code 0x{code:04x}`.
    pub fn get_object_error(handle: u32, code: u16) -> (r: String)
        ensures
            r@ == "GetObject 0x"@ + hex_padded(handle as nat, 8) + " failed with code 0x"@
                + hex_padded(code as nat, 4),
    {
        let mut m = chars_of("GetObject 0x");
        push_hex_padded(&mut m, handle as u64, 8);
        push_str(&mut m, " failed with code 0x");
        push_hex_padded(&mut m, code as u64, 4);
        string_from_chars(m.as_slice())
    }
}

proof fn lemma_params_bytes_len(ps: Seq<u32>)
    ensures
        params_bytes(ps).len() == 4 * ps.len(),
    decreases ps.len(),
{
    if ps.len() > 0 {
        lemma_params_bytes_len(ps.drop_last());
    }
}

proof fn lemma_le32_round_trip(v: u32)
    ensures
        le_u32(le32_bytes(v), 0) == v,
{
    let b = le32_bytes(v);
    assert(b[0] == v % 256 && b[1] == (v / 256) % 256 && b[2] == (v / 65536) % 256 && b[3] == v / 16777216);
    assert((v % 256) as int + ((v / 256) % 256) as int * 256 + ((v / 65536) % 256) as int * 65536
        + (v / 16777216) as int * 16777216 == v) by (nonlinear_arith);
}

proof fn lemma_le16_round_trip(v: u16)
    ensures
        le_u16(le16_bytes(v), 0) == v,
{
    let b = le16_bytes(v);
    assert((v % 256) as int + (v / 256) as int * 256 == v) by (nonlinear_arith);
}

/// A command container is as long as its length field says: 12 bytes of
/// header and 4 for each parameter; its header reads back as a command
/// (type 1) with the operation code and transaction id it was built with,
/// and each parameter reads back from its place.
pub proof fn lemma_command_container(code: u16, tx_id: u32, params: Seq<u32>)
    requires
        12 + 4 * params.len() <= u32::MAX,
    ensures
        command_bytes(code, tx_id, params).len() == 12 + 4 * params.len(),
        le_u32(command_bytes(code, tx_id, params), 0) == 12 + 4 * params.len(),
        le_u16(command_bytes(code, tx_id, params), 4) == 1,
        le_u16(command_bytes(code, tx_id, params), 6) == code,
        le_u32(command_bytes(code, tx_id, params), 8) == tx_id,
        forall|i: int| 0 <= i < params.len() ==> le_u32(command_bytes(code, tx_id, params), 12 + 4 * i) == #[trigger] params[i],
{
    let len = (12 + 4 * params.len()) as u32;
    let b = command_bytes(code, tx_id, params);
    lemma_params_bytes_len(params);
    lemma_le32_round_trip(len);
    lemma_le16_round_trip(1);
    lemma_le16_round_trip(code);
    lemma_le32_round_trip(tx_id);
    assert(b.subrange(0, 4) =~= le32_bytes(len));
    assert(b.subrange(4, 6) =~= le16_bytes(1));
    assert(b.subrange(6, 8) =~= le16_bytes(code));
    assert(b.subrange(8, 12) =~= le32_bytes(tx_id));
    assert(le_u32(b, 0) == le_u32(b.subrange(0, 4), 0));
    assert(le_u16(b, 4) == le_u16(b.subrange(4, 6), 0));
    assert(le_u16(b, 6) == le_u16(b.subrange(6, 8), 0));
    assert(le_u32(b, 8) == le_u32(b.subrange(8, 12), 0));
    assert forall|i: int| 0 <= i < params.len() implies le_u32(b, 12 + 4 * i) == #[trigger] params[i] by {
        lemma_params_bytes_at(params, i);
        lemma_le32_round_trip(params[i]);
        assert(b.subrange(12 + 4 * i, 16 + 4 * i) =~= params_bytes(params).subrange(4 * i, 4 * i + 4));
        assert(le_u32(b, 12 + 4 * i) == le_u32(b.subrange(12 + 4 * i, 16 + 4 * i), 0));
    }
}

proof fn lemma_params_bytes_at(ps: Seq<u32>, i: int)
    requires
        0 <= i < ps.len(),
    ensures
        params_bytes(ps).len() == 4 * ps.len(),
        params_bytes(ps).subrange(4 * i, 4 * i + 4) == le32_bytes(ps[i]),
    decreases ps.len(),
{
    lemma_params_bytes_len(ps);
    let p = ps.drop_last();
    lemma_params_bytes_len(p);
    if i == ps.len() - 1 {
        assert(params_bytes(ps).subrange(4 * i, 4 * i + 4) =~= le32_bytes(ps[i]));
    } else {
        lemma_params_bytes_at(p, i);
        assert(params_bytes(ps).subrange(4 * i, 4 * i + 4) =~= params_bytes(p).subrange(4 * i, 4 * i + 4));
    }
}

proof fn lemma_find_handle(objs: Seq<MtpFileInfoView>, h: u32, i: int)
    requires
        0 <= i,
    ensures
        find_handle(objs, h, i) matches Some(j) ==> i <= j < objs.len() && objs[j].handle == h,
    decreases objs.len() - i,
{
    if i < objs.len() && objs[i].handle != h {
        lemma_find_handle(objs, h, i + 1);
    }
}

/// The handles of the objects.
pub open spec fn handles_of(objs: Seq<MtpFileInfoView>) -> Seq<u32> {
    objs.map_values(|o: MtpFileInfoView| o.handle)
}

/// The handles reached on a walk up the parents, each listed and none
/// twice, are never more than the objects; and a step of the walk keeps
/// them so. So the bound on steps in `chain_from` never ends a walk.
pub proof fn lemma_walk_step(objs: Seq<MtpFileInfoView>, curr: u32, seen: Seq<u32>)
    requires
        seen.no_duplicates(),
        forall|k: int| 0 <= k < seen.len() ==> handles_of(objs).contains(#[trigger] seen[k]),
    ensures
        seen.len() <= objs.len(),
        curr != 0 && !seen.contains(curr) && find_handle(objs, curr, 0) is Some ==> {
            &&& seen.push(curr).no_duplicates()
            &&& forall|k: int| 0 <= k < seen.push(curr).len() ==> handles_of(objs).contains(#[trigger] seen.push(curr)[k])
        },
{
    let hs = handles_of(objs);
    seen.unique_seq_to_set();
    assert(seen.to_set().subset_of(hs.to_set())) by {
        assert forall|x: u32| seen.to_set().contains(x) implies hs.to_set().contains(x) by {
            let k = choose|k: int| 0 <= k < seen.len() && seen[k] == x;
            assert(hs.contains(seen[k]));
        }
    }
    hs.lemma_cardinality_of_set();
    vstd::set_lib::lemma_len_subset(seen.to_set(), hs.to_set());
    if curr != 0 && !seen.contains(curr) && find_handle(objs, curr, 0) is Some {
        lemma_find_handle(objs, curr, 0);
        let j = find_handle(objs, curr, 0)->Some_0;
        assert(hs[j] == curr);
        let s2 = seen.push(curr);
        assert forall|a: int, b: int| 0 <= a < s2.len() && 0 <= b < s2.len() && a != b implies s2[a] != s2[b] by {
            if a == seen.len() as int {
                assert(s2[b] == seen[b]);
            } else if b == seen.len() as int {
                assert(s2[a] == seen[a]);
            } else {
                assert(s2[a] == seen[a] && s2[b] == seen[b]);
            }
        }
        assert forall|k: int| 0 <= k < s2.len() implies hs.contains(#[trigger] s2[k]) by {
            if k < seen.len() {
                assert(s2[k] == seen[k]);
            }
        }
    }
}

} // verus!
