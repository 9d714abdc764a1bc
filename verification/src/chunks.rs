//! The chunk layer of a Standard MIDI File and its header chunk.
use vstd::prelude::*;
use crate::stream::{pop_order, byte_at};

verus! {

/// One chunk of the file: a four-byte type, a length and the body.
pub struct Chunk {
    pub tp: [u8; 4],
    pub len: u32,
    /// The body, back to front: pop to get the next byte.
    pub data: Vec<u8>,
}

impl Chunk {
    /// The body holds exactly `len` bytes.
    pub open spec fn wf(&self) -> bool {
        self.data@.len() == self.len
    }

    /// The body in file order.
    pub open spec fn body(&self) -> Seq<u8> {
        pop_order(self.data@)
    }

    /// The chunk as a pair of its type and its body.
    pub open spec fn model(&self) -> (Seq<u8>, Seq<u8>) {
        (self.tp@, self.body())
    }
}

/// A big-endian 32-bit number at position `p`.
pub open spec fn be32(s: Seq<u8>, p: int) -> int {
    s[p] * 0x100_0000 + s[p + 1] * 0x1_0000 + s[p + 2] * 0x100 + s[p + 3]
}

/// A big-endian 16-bit number at position `p`.
pub open spec fn be16(s: Seq<u8>, p: int) -> int {
    s[p] * 0x100 + s[p + 1]
}

/// The chunks of `s` from position `p` on, each as its type and body:
/// four type bytes, a big-endian length, then that many body bytes.
/// `None` where the bytes run out inside a chunk.
pub open spec fn chunk_layout(s: Seq<u8>, p: int) -> Option<Seq<(Seq<u8>, Seq<u8>)>>
    decreases s.len() - p,
{
    if p < 0 || p >= s.len() {
        Some(Seq::empty())
    } else if p + 8 > s.len() {
        None
    } else {
        let n = be32(s, p + 4);
        if p + 8 + n > s.len() {
            None
        } else {
            match chunk_layout(s, p + 8 + n) {
                Some(rest) => Some(seq![(s.subrange(p, p + 4), s.subrange(p + 8, p + 8 + n))] + rest),
                None => None,
            }
        }
    }
}

/// The four bytes of a big-endian 32-bit number.
pub open spec fn be32_bytes(n: int) -> Seq<u8> {
    seq![
        (n / 0x100_0000 % 0x100) as u8,
        (n / 0x1_0000 % 0x100) as u8,
        (n / 0x100 % 0x100) as u8,
        (n % 0x100) as u8,
    ]
}

/// The bytes of a sequence of chunks, each written as type, length and body.
pub open spec fn encode_chunks(cs: Seq<(Seq<u8>, Seq<u8>)>) -> Seq<u8>
    decreases cs.len(),
{
    if cs.len() == 0 {
        Seq::empty()
    } else {
        cs[0].0 + be32_bytes(cs[0].1.len() as int) + cs[0].1 + encode_chunks(cs.drop_first())
    }
}

proof fn lemma_be32_bytes(s: Seq<u8>, p: int)
    requires
        0 <= p,
        p + 4 <= s.len(),
    ensures
        be32_bytes(be32(s, p)) == s.subrange(p, p + 4),
{
    let (a, b, c, d) = (s[p] as int, s[p + 1] as int, s[p + 2] as int, s[p + 3] as int);
    let n = be32(s, p);
    assert(n / 0x100_0000 % 0x100 == a && n / 0x1_0000 % 0x100 == b && n / 0x100 % 0x100 == c && n % 0x100 == d)
        by (nonlinear_arith)
        requires
            n == a * 0x100_0000 + b * 0x1_0000 + c * 0x100 + d,
            0 <= a < 256, 0 <= b < 256, 0 <= c < 256, 0 <= d < 256;
    assert(be32_bytes(n) =~= s.subrange(p, p + 4));
}

proof fn lemma_layout_encodes(s: Seq<u8>, p: int)
    requires
        0 <= p <= s.len(),
        chunk_layout(s, p) is Some,
    ensures
        encode_chunks(chunk_layout(s, p).unwrap()) == s.subrange(p, s.len() as int),
    decreases s.len() - p,
{
    if p == s.len() {
        assert(s.subrange(p, p) =~= Seq::<u8>::empty());
    } else {
        let n = be32(s, p + 4);
        let e = p + 8 + n;
        lemma_layout_encodes(s, e);
        lemma_be32_bytes(s, p + 4);
        let cs = chunk_layout(s, p).unwrap();
        let rest = chunk_layout(s, e).unwrap();
        assert(cs.drop_first() =~= rest);
        assert(cs[0].1.len() == n);
        assert(s.subrange(p, p + 4) + s.subrange(p + 4, p + 8) + s.subrange(p + 8, e) + s.subrange(e, s.len() as int)
            =~= s.subrange(p, s.len() as int));
    }
}

/// Reading the chunks loses nothing: the chunks read, each written back as
/// its type, its length and its body, give the bytes that were read.
pub proof fn law_chunks_encode_back(s: Seq<u8>)
    requires
        chunk_layout(s, 0) is Some,
    ensures
        encode_chunks(chunk_layout(s, 0).unwrap()) == s,
        encoded_len(chunk_layout(s, 0).unwrap()) == s.len(),
{
    lemma_layout_encodes(s, 0);
    assert(s.subrange(0, s.len() as int) =~= s);
    lemma_layout_encodable(s, 0);
    lemma_encode_len(chunk_layout(s, 0).unwrap());
}

proof fn lemma_layout_encodable(s: Seq<u8>, p: int)
    requires
        0 <= p <= s.len(),
        chunk_layout(s, p) is Some,
    ensures
        encodable(chunk_layout(s, p).unwrap()),
    decreases s.len() - p,
{
    if p < s.len() {
        let n = be32(s, p + 4);
        lemma_layout_encodable(s, p + 8 + n);
        let cs = chunk_layout(s, p).unwrap();
        let rest = chunk_layout(s, p + 8 + n).unwrap();
        assert forall|i: int| 0 <= i < cs.len() implies (#[trigger] cs[i]).0.len() == 4 && cs[i].1.len() <= u32::MAX by {
            if i > 0 {
                assert(cs[i] == rest[i - 1]);
            } else {
                assert(n <= u32::MAX);
            }
        }
    }
}

/// Chunks that can be written: four type bytes each, and bodies whose
/// length fits in 32 bits.
pub open spec fn encodable(cs: Seq<(Seq<u8>, Seq<u8>)>) -> bool {
    forall|i: int| 0 <= i < cs.len() ==> (#[trigger] cs[i]).0.len() == 4 && cs[i].1.len() <= u32::MAX
}

/// The number of bytes chunks take: eight for type and length, then the body.
pub open spec fn encoded_len(cs: Seq<(Seq<u8>, Seq<u8>)>) -> int
    decreases cs.len(),
{
    if cs.len() == 0 {
        0
    } else {
        8 + cs[0].1.len() + encoded_len(cs.drop_first())
    }
}

proof fn lemma_be32_of_bytes(n: int)
    requires
        0 <= n <= u32::MAX,
    ensures
        be32(be32_bytes(n), 0) == n,
{
    let b = be32_bytes(n);
    assert((n / 0x100_0000 % 0x100) * 0x100_0000 + (n / 0x1_0000 % 0x100) * 0x1_0000 + (n / 0x100 % 0x100) * 0x100
        + n % 0x100 == n) by (nonlinear_arith)
        requires 0 <= n <= u32::MAX;
}

proof fn lemma_encode_len(cs: Seq<(Seq<u8>, Seq<u8>)>)
    requires
        encodable(cs),
    ensures
        encode_chunks(cs).len() == encoded_len(cs),
    decreases cs.len(),
{
    if cs.len() > 0 {
        assert(encodable(cs.drop_first())) by {
            assert forall|i: int| 0 <= i < cs.drop_first().len() implies (#[trigger] cs.drop_first()[i]).0.len() == 4
                && cs.drop_first()[i].1.len() <= u32::MAX by {
                assert(cs.drop_first()[i] == cs[i + 1]);
            }
        }
        lemma_encode_len(cs.drop_first());
        assert(cs[0].0.len() == 4);
    }
}

proof fn lemma_layout_of_encoding(pre: Seq<u8>, cs: Seq<(Seq<u8>, Seq<u8>)>)
    requires
        encodable(cs),
    ensures
        chunk_layout(pre + encode_chunks(cs), pre.len() as int) == Some(cs),
    decreases cs.len(),
{
    let s = pre + encode_chunks(cs);
    let p = pre.len() as int;
    if cs.len() == 0 {
        assert(s =~= pre);
        assert(cs =~= Seq::<(Seq<u8>, Seq<u8>)>::empty());
    } else {
        let rest = cs.drop_first();
        assert(encodable(rest)) by {
            assert forall|i: int| 0 <= i < rest.len() implies (#[trigger] rest[i]).0.len() == 4
                && rest[i].1.len() <= u32::MAX by {
                assert(rest[i] == cs[i + 1]);
            }
        }
        let (tag, body) = cs[0];
        let n = body.len() as int;
        assert(tag.len() == 4 && n <= u32::MAX);
        let lb = be32_bytes(n);
        let pre2 = pre + tag + lb + body;
        assert(s =~= pre2 + encode_chunks(rest));
        lemma_encode_len(rest);
        lemma_be32_of_bytes(n);
        assert(s.subrange(p + 4, p + 8) =~= lb);
        assert(be32(s, p + 4) == be32(lb, 0));
        assert(s.subrange(p, p + 4) =~= tag);
        assert(s.subrange(p + 8, p + 8 + n) =~= body);
        lemma_layout_of_encoding(pre2, rest);
        assert(pre2.len() == p + 8 + n);
        assert(seq![(tag, body)] + rest =~= cs);
    }
}

/// Writing chunks and reading them back gives the same chunks, and the bytes
/// they take are eight per chunk plus the bodies.
pub proof fn law_chunks_read_back(cs: Seq<(Seq<u8>, Seq<u8>)>)
    requires
        encodable(cs),
    ensures
        chunk_layout(encode_chunks(cs), 0) == Some(cs),
        encode_chunks(cs).len() == encoded_len(cs),
{
    lemma_layout_of_encoding(Seq::empty(), cs);
    assert(Seq::<u8>::empty() + encode_chunks(cs) =~= encode_chunks(cs));
    lemma_encode_len(cs);
}

/// Reads the chunks of a reversed file buffer; `None` where the bytes run
/// out inside a chunk.
pub fn try_parse_chunks(data: &Vec<u8>) -> (res: Option<Vec<Chunk>>)
    ensures
        match chunk_layout(pop_order(data@), 0) {
            None => res is None,
            Some(cs) => res matches Some(chunks) && chunks@.map_values(|c: Chunk| c.model()) == cs
                && forall|i: int| 0 <= i < chunks@.len() ==> (#[trigger] chunks@[i]).wf(),
        },
{
    let ghost s = pop_order(data@);
    let total = data.len();
    let mut chunks: Vec<Chunk> = Vec::new();
    let mut p: usize = 0;
    let ghost mut acc: Seq<(Seq<u8>, Seq<u8>)> = Seq::empty();
    while p < total
        invariant
            total == data@.len(),
            s == pop_order(data@),
            p <= total,
            chunks@.map_values(|c: Chunk| c.model()) == acc,
            forall|i: int| 0 <= i < chunks@.len() ==> (#[trigger] chunks@[i]).wf(),
            chunk_layout(s, 0) == match chunk_layout(s, p as int) {
                Some(rest) => Some(acc + rest),
                None => None,
            },
        decreases total - p,
    {
        if total - p < 8 {
            return None;
        }
        let tp: [u8; 4] = [byte_at(data, p), byte_at(data, p + 1), byte_at(data, p + 2), byte_at(data, p + 3)];
        let b0 = byte_at(data, p + 4) as u32;
        let b1 = byte_at(data, p + 5) as u32;
        let b2 = byte_at(data, p + 6) as u32;
        let b3 = byte_at(data, p + 7) as u32;
        let len: u32 = b0 * 0x100_0000 + b1 * 0x1_0000 + b2 * 0x100 + b3;
        assert(len == be32(s, p + 4));
        let n = len as usize;
        if n > total - p - 8 {
            return None;
        }
        let start = p + 8;
        let mut body: Vec<u8> = Vec::new();
        let mut k: usize = 0;
        while k < n
            invariant
                total == data@.len(),
                s == pop_order(data@),
                start + n <= total,
                k <= n,
                body@.len() == k,
                forall|j: int| 0 <= j < k ==> body@[j] == s[start + n - 1 - j],
            decreases n - k,
        {
            body.push(byte_at(data, start + n - 1 - k));
            k = k + 1;
        }
        let chunk = Chunk { tp, len, data: body };
        assert(chunk.body() =~= s.subrange(start as int, (start + n) as int));
        assert(chunk.tp@ =~= s.subrange(p as int, p + 4));
        let ghost old_chunks = chunks@;
        chunks.push(chunk);
        proof {
            acc = acc.push((s.subrange(p as int, p + 4), s.subrange(start as int, (start + n) as int)));
            assert(chunks@.map_values(|c: Chunk| c.model()) =~= acc) by {
                assert(chunks@ == old_chunks.push(chunk));
            }
            let next = chunk_layout(s, (start + n) as int);
            assert(chunk_layout(s, p as int) == match next {
                Some(rest) => Some(seq![(s.subrange(p as int, p + 4), s.subrange(start as int, (start + n) as int))] + rest),
                None => None,
            });
            if let Some(rest) = next {
                assert(acc + rest =~= acc.drop_last() + (seq![acc.last()] + rest));
            }
        }
        p = start + n;
    }
    assert(acc + Seq::<(Seq<u8>, Seq<u8>)>::empty() =~= acc);
    Some(chunks)
}

/// Splits a reversed file buffer into its chunks.
pub fn parse_chunks(data: Vec<u8>) -> (res: Result<Vec<Chunk>, String>)
    requires
        chunk_layout(pop_order(data@), 0) is Some,
    ensures
        res matches Ok(chunks) && chunks@.map_values(|c: Chunk| c.model())
            == chunk_layout(pop_order(data@), 0).unwrap()
            && forall|i: int| 0 <= i < chunks@.len() ==> (#[trigger] chunks@[i]).wf(),
{
    match try_parse_chunks(&data) {
        Some(chunks) => Ok(chunks),
        None => unreached(),
    }
}

/// The fields of the header chunk.
#[derive(Debug, Clone, Copy, PartialEq, Eq)]
pub struct HeaderData {
    pub format: u16,
    pub ntrks: u16,
    pub division: u16,
}

/// The type bytes of the header chunk, "MThd".
pub open spec fn is_header_tag(tp: Seq<u8>) -> bool {
    tp == seq![0x4Du8, 0x54u8, 0x68u8, 0x64u8]
}

/// Whether a chunk is a header chunk of the one length that is accepted.
pub open spec fn is_valid_header(c: Chunk) -> bool {
    is_header_tag(c.tp@) && c.len == 6
}

/// The message given when the first chunk is no header.
pub open spec fn invalid_header_message() -> Seq<char> {
    "Midi is not valid - first chunk is not a valid header."@
}

/// Reads the header chunk: format, track count and division, each a
/// big-endian 16-bit number.
pub fn process_header_chunk(chunk: &Chunk) -> (res: Result<HeaderData, String>)
    requires
        is_valid_header(*chunk) ==> chunk.data@.len() >= 6,
    ensures
        is_valid_header(*chunk) ==> res == Ok::<HeaderData, String>(HeaderData {
            format: be16(chunk.body(), 0) as u16,
            ntrks: be16(chunk.body(), 2) as u16,
            division: be16(chunk.body(), 4) as u16,
        }),
        !is_valid_header(*chunk) ==> (res matches Err(e) && e@ == invalid_header_message()),
{
    if !(chunk.tp[0] == 0x4D && chunk.tp[1] == 0x54 && chunk.tp[2] == 0x68 && chunk.tp[3] == 0x64)
        || chunk.len != 6 {
        proof {
            if is_header_tag(chunk.tp@) {
                assert(chunk.tp@[0] == 0x4D && chunk.tp@[1] == 0x54 && chunk.tp@[2] == 0x68 && chunk.tp@[3] == 0x64);
            }
        }
        return Err(String::from_str("Midi is not valid - first chunk is not a valid header."));
    }
    assert(chunk.tp@ =~= seq![0x4Du8, 0x54u8, 0x68u8, 0x64u8]);
    let d = &chunk.data;
    let format = (byte_at(d, 0) as u16) * 0x100 + byte_at(d, 1) as u16;
    let ntrks = (byte_at(d, 2) as u16) * 0x100 + byte_at(d, 3) as u16;
    let division = (byte_at(d, 4) as u16) * 0x100 + byte_at(d, 5) as u16;
    Ok(HeaderData { format, ntrks, division })
}

/// The header fields are read back from their big-endian bytes: a header
/// body made of format, track count and division, each written high byte
/// first, gives those three numbers.
pub proof fn law_header_fields_read_back(format: u16, ntrks: u16, division: u16)
    ensures
        ({
            let body = seq![
                (format / 0x100) as u8, (format % 0x100) as u8,
                (ntrks / 0x100) as u8, (ntrks % 0x100) as u8,
                (division / 0x100) as u8, (division % 0x100) as u8,
            ];
            &&& be16(body, 0) == format
            &&& be16(body, 2) == ntrks
            &&& be16(body, 4) == division
        }),
{
}

} // verus!
