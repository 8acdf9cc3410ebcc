//! Structural PNG parsing: enumerate chunks and collect the uncompressed
//! Latin-1 text entries (`tEXt` chunks).
//!
//! The parse is purely structural: the eight-byte PNG signature is checked,
//! then chunks are walked (four-byte big-endian length, four-byte type,
//! payload, four-byte checksum) until the first `IDAT` or `IEND` chunk
//! header, which ends the metadata section of the stream. Pixel data is
//! never decoded and checksums are not recomputed. Compressed (`zTXt`) and
//! international (`iTXt`) text chunks are deliberately not extracted.

use vstd::prelude::*;

verus! {

/// One textual metadata entry: a keyword/value pair taken verbatim from a
/// `tEXt` chunk.
#[derive(Debug)]
pub struct MetadataEntry {
    pub keyword: String,
    pub value: String,
}

/// Why extraction failed.
#[derive(Debug)]
pub enum ExtractError {
    /// The byte stream could not be obtained at all; carries the name of the
    /// offending file and a description of the underlying I/O failure.
    /// Never produced by `extract` itself, which already holds the bytes.
    Io { filename: String, message: String },
    /// The stream does not begin with the PNG signature; carries the name of
    /// the offending file.
    Format { filename: String },
    /// The signature is present but the chunk structure is malformed;
    /// carries the name of the offending file.
    Decode { filename: String },
}

/// The big-endian 32-bit integer stored at `pos`.
pub open spec fn be32_at(d: Seq<u8>, pos: int) -> int {
    d[pos] * 0x1000000 + d[pos + 1] * 0x10000 + d[pos + 2] * 0x100 + d[pos + 3]
}

/// The stream begins with the eight-byte PNG signature.
pub open spec fn has_png_signature(d: Seq<u8>) -> bool {
    &&& d.len() >= 8
    &&& d[0] == 137u8
    &&& d[1] == 80u8
    &&& d[2] == 78u8
    &&& d[3] == 71u8
    &&& d[4] == 13u8
    &&& d[5] == 10u8
    &&& d[6] == 26u8
    &&& d[7] == 10u8
}

/// The chunk whose header starts at `pos` has the four-byte type
/// `t0 t1 t2 t3` (the type field sits after the length field).
pub open spec fn chunk_type_is(d: Seq<u8>, pos: int, t0: u8, t1: u8, t2: u8, t3: u8) -> bool {
    &&& d[pos + 4] == t0
    &&& d[pos + 5] == t1
    &&& d[pos + 6] == t2
    &&& d[pos + 7] == t3
}

/// `IDAT`: start of pixel data, which ends the metadata section.
pub open spec fn is_idat(d: Seq<u8>, pos: int) -> bool {
    chunk_type_is(d, pos, 73u8, 68u8, 65u8, 84u8)
}

/// `IEND`: end of the stream.
pub open spec fn is_iend(d: Seq<u8>, pos: int) -> bool {
    chunk_type_is(d, pos, 73u8, 69u8, 78u8, 68u8)
}

/// `tEXt`: an uncompressed Latin-1 text chunk.
pub open spec fn is_text(d: Seq<u8>, pos: int) -> bool {
    chunk_type_is(d, pos, 116u8, 69u8, 88u8, 116u8)
}

/// Walks the chunk sequence from `pos` and returns the payloads of the
/// `tEXt` chunks in stream order, or `None` when the chunk structure is
/// malformed (a chunk header or body runs past the end of the stream
/// before an `IDAT` or `IEND` header is reached).
pub open spec fn scan_chunks(d: Seq<u8>, pos: int) -> Option<Seq<Seq<u8>>>
    decreases d.len() - pos,
{
    if pos + 8 > d.len() {
        None
    } else if is_idat(d, pos) || is_iend(d, pos) {
        Some(Seq::empty())
    } else if pos + 12 + be32_at(d, pos) > d.len() {
        None
    } else {
        let len = be32_at(d, pos);
        match scan_chunks(d, pos + 12 + len) {
            None => None,
            Some(rest) => if is_text(d, pos) {
                Some(seq![d.subrange(pos + 8, pos + 8 + len)] + rest)
            } else {
                Some(rest)
            },
        }
    }
}

/// Index of the first zero byte of `b`, or `b.len()` when there is none.
pub open spec fn first_nul(b: Seq<u8>) -> int
    decreases b.len(),
{
    if b.len() == 0 {
        0
    } else if b[0] == 0 {
        0
    } else {
        1 + first_nul(b.drop_first())
    }
}

/// `b` contains a zero byte (the keyword/value separator of a `tEXt`
/// chunk payload).
pub open spec fn has_nul(b: Seq<u8>) -> bool {
    first_nul(b) < b.len()
}

/// Latin-1 decoding: every byte becomes the character with the same code
/// point.
pub open spec fn latin1(b: Seq<u8>) -> Seq<char> {
    b.map_values(|x: u8| x as char)
}

/// The keyword/value pair carried by a `tEXt` chunk payload: the bytes
/// before the first zero byte are the keyword, the bytes after it are the
/// value, both decoded as Latin-1.
pub open spec fn entry_of(b: Seq<u8>) -> (Seq<char>, Seq<char>) {
    (latin1(b.take(first_nul(b))), latin1(b.skip(first_nul(b) + 1)))
}

/// The stream is a well-formed metadata section: PNG signature, well-formed
/// chunk structure, and every `tEXt` payload contains the mandatory
/// keyword/value separator.
pub open spec fn parse_ok(d: Seq<u8>) -> bool {
    &&& has_png_signature(d)
    &&& scan_chunks(d, 8) is Some
    &&& forall|i: int|
        0 <= i < scan_chunks(d, 8)->Some_0.len() ==> has_nul(#[trigger] scan_chunks(d, 8)->Some_0[i])
}

/// The keyword/value pairs carried by a sequence of `tEXt` payloads.
pub open spec fn entries_of(bs: Seq<Seq<u8>>) -> Seq<(Seq<char>, Seq<char>)> {
    bs.map_values(|b: Seq<u8>| entry_of(b))
}

/// The text entries of a well-formed stream, in stream order.
pub open spec fn text_entries(d: Seq<u8>) -> Seq<(Seq<char>, Seq<char>)>
    recommends
        parse_ok(d),
{
    entries_of(scan_chunks(d, 8)->Some_0)
}

/// `v` holds exactly the entries `e`, keyword and value character for
/// character.
pub open spec fn entries_match(v: Seq<MetadataEntry>, e: Seq<(Seq<char>, Seq<char>)>) -> bool {
    &&& v.len() == e.len()
    &&& forall|i: int|
        0 <= i < v.len() ==> (#[trigger] v[i]).keyword@ == e[i].0 && v[i].value@ == e[i].1
}

/// `first_nul` is the index of the first zero byte: it is in range, it lands
/// on a zero byte whenever one exists, and everything before it is non-zero.
pub proof fn lemma_first_nul(b: Seq<u8>)
    ensures
        0 <= first_nul(b) <= b.len(),
        first_nul(b) < b.len() ==> b[first_nul(b)] == 0,
        forall|i: int| 0 <= i < first_nul(b) ==> b[i] != 0,
    decreases b.len(),
{
    if b.len() == 0 {
    } else if b[0] == 0 {
    } else {
        lemma_first_nul(b.drop_first());
        assert(first_nul(b) == 1 + first_nul(b.drop_first()));
        if first_nul(b) < b.len() {
            assert(b[first_nul(b)] == b.drop_first()[first_nul(b.drop_first())]);
        }
        assert forall|i: int| 0 <= i < first_nul(b) implies b[i] != 0 by {
            if i > 0 {
                assert(b[i] == b.drop_first()[i - 1]);
            }
        }
    }
}

/// Relies on `String`'s `FromIterator<char>` implementation: collecting
/// characters yields the string holding exactly those characters, in order.
#[verifier::external_body]
fn string_from_chars(chars: Vec<char>) -> (r: String)
    ensures
        r@ == chars@,
{
    String::from_iter(chars)
}

/// Latin-1 decoding of `data[start..end]` into an owned string.
fn collect_latin1(data: &Vec<u8>, start: usize, end: usize) -> (s: String)
    requires
        start <= end <= data@.len(),
    ensures
        s@ == latin1(data@.subrange(start as int, end as int)),
{
    let mut chars: Vec<char> = Vec::new();
    let mut i: usize = start;
    while i < end
        invariant
            start <= i <= end <= data@.len(),
            chars@.len() == i - start,
            forall|k: int| 0 <= k < chars@.len() ==> chars@[k] == (data@[start + k] as char),
        decreases end - i,
    {
        let b = data[i];
        chars.push(b as char);
        i = i + 1;
    }
    proof {
        assert(chars@ =~= latin1(data@.subrange(start as int, end as int)));
    }
    string_from_chars(chars)
}

/// Index of the first zero byte of `data[start..end]`, with everything
/// before it non-zero; `None` when the range holds no zero byte.
fn find_nul(data: &Vec<u8>, start: usize, end: usize) -> (r: Option<usize>)
    requires
        start <= end <= data@.len(),
    ensures
        match r {
            Some(j) => start <= j < end && data@[j as int] == 0 && forall|k: int|
                start <= k < j ==> data@[k] != 0,
            None => forall|k: int| start <= k < end ==> data@[k] != 0,
        },
{
    let mut i: usize = start;
    while i < end
        invariant
            start <= i <= end <= data@.len(),
            forall|k: int| start <= k < i ==> data@[k] != 0,
        decreases end - i,
    {
        if data[i] == 0 {
            return Some(i);
        }
        i = i + 1;
    }
    None
}

/// Extracts the uncompressed Latin-1 text entries of the PNG byte stream
/// `data`, in stream order. `filename` is only used to label errors.
///
/// Fails with `Format` exactly when the stream does not begin with the PNG
/// signature, and with `Decode` exactly when the signature is present but
/// the chunk structure is malformed (a chunk runs past the end of the
/// stream before `IDAT`/`IEND`, or a `tEXt` payload lacks its mandatory
/// keyword/value separator). Never fails with `Io`.
pub fn extract(filename: &str, data: &Vec<u8>) -> (r: Result<Vec<MetadataEntry>, ExtractError>)
    ensures
        match r {
            Ok(v) => parse_ok(data@) && entries_match(v@, text_entries(data@)),
            Err(e) => match e {
                ExtractError::Format { filename: f } => !has_png_signature(data@) && f@
                    == filename@,
                ExtractError::Decode { filename: f } => has_png_signature(data@) && !parse_ok(
                    data@,
                ) && f@ == filename@,
                ExtractError::Io { .. } => false,
            },
        },
{
    if data.len() < 8 || data[0] != 137 || data[1] != 80 || data[2] != 78 || data[3] != 71
        || data[4] != 13 || data[5] != 10 || data[6] != 26 || data[7] != 10 {
        return Err(ExtractError::Format { filename: filename.to_owned() });
    }
    let mut pos: usize = 8;
    let mut out: Vec<MetadataEntry> = Vec::new();
    let ghost mut found: Seq<Seq<u8>> = Seq::empty();
    loop
        invariant
            has_png_signature(data@),
            8 <= pos <= data@.len(),
            scan_chunks(data@, 8) is Some <==> scan_chunks(data@, pos as int) is Some,
            scan_chunks(data@, pos as int) is Some ==> scan_chunks(data@, 8) == Some(
                found + scan_chunks(data@, pos as int)->Some_0,
            ),
            forall|i: int| 0 <= i < found.len() ==> has_nul(#[trigger] found[i]),
            entries_match(out@, entries_of(found)),
        decreases data@.len() - pos,
    {
        let rem: usize = data.len() - pos;
        if rem < 8 {
            proof {
                assert(scan_chunks(data@, pos as int) is None);
            }
            return Err(ExtractError::Decode { filename: filename.to_owned() });
        }
        let t0 = data[pos + 4];
        let t1 = data[pos + 5];
        let t2 = data[pos + 6];
        let t3 = data[pos + 7];
        if (t0 == 73 && t1 == 68 && t2 == 65 && t3 == 84) || (t0 == 73 && t1 == 69 && t2 == 78
            && t3 == 68) {
            proof {
                assert(scan_chunks(data@, pos as int) == Some(Seq::<Seq<u8>>::empty()));
                assert(found + Seq::<Seq<u8>>::empty() =~= found);
                assert(scan_chunks(data@, 8) == Some(found));
            }
            return Ok(out);
        }
        let len_u: u32 = (data[pos] as u32) * 0x1000000 + (data[pos + 1] as u32) * 0x10000 + (
        data[pos + 2] as u32) * 0x100 + (data[pos + 3] as u32);
        proof {
            assert(len_u == be32_at(data@, pos as int));
        }
        if rem < 12 || (len_u as usize) > rem - 12 {
            proof {
                assert(scan_chunks(data@, pos as int) is None);
            }
            return Err(ExtractError::Decode { filename: filename.to_owned() });
        }
        let len: usize = len_u as usize;
        let next_pos: usize = pos + 12 + len;
        let ghost blob: Seq<u8> = data@.subrange(pos + 8, pos + 8 + len_u as int);
        if t0 == 116 && t1 == 69 && t2 == 88 && t3 == 116 {
            proof {
                assert(is_text(data@, pos as int));
                assert(scan_chunks(data@, pos as int) == (match scan_chunks(
                    data@,
                    pos + 12 + be32_at(data@, pos as int),
                ) {
                    None => None::<Seq<Seq<u8>>>,
                    Some(rest) => Some(seq![blob] + rest),
                }));
            }
            match find_nul(data, pos + 8, pos + 8 + len) {
                None => {
                    proof {
                        lemma_first_nul(blob);
                        assert(forall|k: int|
                            0 <= k < blob.len() ==> blob[k] == data@[pos + 8 + k] && blob[k] != 0);
                        assert(!has_nul(blob));
                        if scan_chunks(data@, pos as int) is Some {
                            let all = scan_chunks(data@, 8)->Some_0;
                            assert(all[found.len() as int] == blob);
                            assert(!parse_ok(data@));
                        }
                    }
                    return Err(ExtractError::Decode { filename: filename.to_owned() });
                },
                Some(j) => {
                    let keyword = collect_latin1(data, pos + 8, j);
                    let value = collect_latin1(data, j + 1, pos + 8 + len);
                    proof {
                        lemma_first_nul(blob);
                        let jj = j - (pos + 8);
                        assert(blob[jj] == data@[j as int]);
                        assert forall|i: int| 0 <= i < jj implies blob[i] != 0 by {
                            assert(blob[i] == data@[pos + 8 + i]);
                        }
                        if first_nul(blob) < jj {
                            assert(data@[pos + 8 + first_nul(blob)] == blob[first_nul(blob)]);
                            assert(false);
                        }
                        assert(first_nul(blob) == jj);
                        assert(blob.take(jj) =~= data@.subrange(pos + 8, j as int));
                        assert(blob.skip(jj + 1) =~= data@.subrange(j + 1, pos + 8 + len_u as int));
                        assert(keyword@ == entry_of(blob).0);
                        assert(value@ == entry_of(blob).1);
                    }
                    out.push(MetadataEntry { keyword, value });
                    proof {
                        let found2 = found.push(blob);
                        assert(entries_of(found2) =~= entries_of(found).push(entry_of(blob)));
                        assert(entries_match(out@, entries_of(found2)));
                        if scan_chunks(data@, next_pos as int) is Some {
                            assert(found + (seq![blob] + scan_chunks(data@, next_pos as int)->Some_0)
                                =~= found2 + scan_chunks(data@, next_pos as int)->Some_0);
                        }
                        found = found2;
                    }
                },
            }
        } else {
            proof {
                assert(scan_chunks(data@, pos as int) == scan_chunks(
                    data@,
                    pos + 12 + be32_at(data@, pos as int),
                ));
            }
        }
        pos = next_pos;
    }
}

} // verus!
