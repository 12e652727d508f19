//! Message framing: a message travels as chunks, each a two-byte
//! big-endian length and that many bytes, followed by the terminator `00 00`.
use vstd::prelude::*;

verus! {

/// The largest chunk payload a two-byte length can announce.
pub const MAX_CHUNK_SIZE: usize = 65535;

/// The two-byte big-endian header announcing `k` bytes.
pub open spec fn chunk_header(k: nat) -> Seq<u8> {
    seq![(k / 256) as u8, (k % 256) as u8]
}

/// The framed form of `payload`, in chunks of at most `max` bytes.
pub open spec fn chunked(payload: Seq<u8>, max: nat) -> Seq<u8>
    decreases payload.len(),
{
    if payload.len() == 0 || max == 0 {
        seq![0u8, 0u8]
    } else {
        let k = if payload.len() > max { max } else { payload.len() };
        chunk_header(k) + payload.take(k as int) + chunked(payload.skip(k as int), max)
    }
}

/// Reading a framed message from `d` at `pos`, after `acc` was already
/// gathered: the payload and the position after the terminator, or `None`
/// when `d` ends before the terminator.
pub open spec fn unchunk(d: Seq<u8>, pos: int, acc: Seq<u8>) -> Option<(Seq<u8>, int)>
    decreases d.len() - pos,
{
    if pos < 0 || pos + 2 > d.len() {
        None
    } else {
        let len = d[pos] * 256 + d[pos + 1];
        if len == 0 {
            Some((acc, pos + 2))
        } else if pos + 2 + len > d.len() {
            None
        } else {
            unchunk(d, pos + 2 + len, acc + d.subrange(pos + 2, pos + 2 + len))
        }
    }
}

/// Splits outbound messages into chunks.
pub struct ChunkWriter<W> {
    pub writer: W,
    pub max_chunk_size: usize,
}

impl<W> ChunkWriter<W> {
    pub fn new(writer: W) -> (r: ChunkWriter<W>)
        ensures
            r.writer == writer,
            r.max_chunk_size == MAX_CHUNK_SIZE,
    {
        ChunkWriter { writer, max_chunk_size: MAX_CHUNK_SIZE }
    }

    /// The bytes that carry `data` as one message.
    pub fn frame(&self, data: &[u8]) -> (r: Vec<u8>)
        requires
            1 <= self.max_chunk_size <= MAX_CHUNK_SIZE,
        ensures
            r@ == chunked(data@, self.max_chunk_size as nat),
    {
        write_message(data, self.max_chunk_size)
    }
}

proof fn lemma_chunked_split(payload: Seq<u8>, max: nat, offset: nat)
    requires
        1 <= max,
        offset < payload.len(),
    ensures
        ({
            let rest = payload.skip(offset as int);
            let k = if rest.len() > max { max } else { rest.len() };
            chunked(rest, max) == chunk_header(k) + rest.take(k as int) + chunked(
                payload.skip((offset + k) as int),
                max,
            )
        }),
{
    let rest = payload.skip(offset as int);
    let k = if rest.len() > max { max } else { rest.len() };
    assert(rest.skip(k as int) =~= payload.skip((offset + k) as int));
}

/// Frames `data` as one message in chunks of at most `max` bytes.
pub fn write_message(data: &[u8], max: usize) -> (r: Vec<u8>)
    requires
        1 <= max <= MAX_CHUNK_SIZE,
    ensures
        r@ == chunked(data@, max as nat),
{
    let mut out: Vec<u8> = Vec::new();
    let mut offset: usize = 0;
    let n = data.len();
    assert(data@.skip(0) =~= data@);
    assert(out@ + chunked(data@, max as nat) =~= chunked(data@, max as nat));
    while offset < n
        invariant
            offset <= n,
            n == data@.len(),
            1 <= max <= MAX_CHUNK_SIZE,
            out@ + chunked(data@.skip(offset as int), max as nat) == chunked(data@, max as nat),
        decreases n - offset,
    {
        let end = if n - offset > max { offset + max } else { n };
        let len = end - offset;
        proof {
            lemma_chunked_split(data@, max as nat, offset as nat);
        }
        let ghost before = out@;
        out.push((len / 256) as u8);
        out.push((len % 256) as u8);
        let mut i = offset;
        while i < end
            invariant
                offset <= i <= end,
                end <= n,
                n == data@.len(),
                out@ == before + chunk_header(len as nat) + data@.subrange(offset as int, i as int),
            decreases end - i,
        {
            out.push(data[i]);
            i += 1;
            assert(out@ =~= before + chunk_header(len as nat) + data@.subrange(
                offset as int,
                i as int,
            ));
        }
        proof {
            assert(data@.skip(offset as int).take(len as int) =~= data@.subrange(
                offset as int,
                end as int,
            ));
            assert(out@ + chunked(data@.skip(end as int), max as nat) =~= before + chunked(
                data@.skip(offset as int),
                max as nat,
            ));
        }
        offset = end;
    }
    out.push(0);
    out.push(0);
    proof {
        assert(data@.skip(offset as int).len() == 0);
    }
    assert(out@ =~= chunked(data@, max as nat));
    out
}

/// The length announced by a chunk header.
pub fn chunk_len(hi: u8, lo: u8) -> (r: usize)
    ensures
        r == hi * 256 + lo,
        r <= MAX_CHUNK_SIZE,
{
    (hi as usize) * 256 + (lo as usize)
}

/// Reads one framed message from `data` at `pos`: its payload and the
/// position after its terminator, or `None` if the data ends first.
pub fn read_message(data: &[u8], pos: usize) -> (r: Option<(Vec<u8>, usize)>)
    ensures
        match unchunk(data@, pos as int, Seq::empty()) {
            None => r is None,
            Some((p, end)) => r is Some && r->Some_0.0@ == p && r->Some_0.1 == end,
        },
{
    let n = data.len();
    let mut out: Vec<u8> = Vec::new();
    let mut cur = pos;
    while cur <= n && n - cur >= 2
        invariant
            n == data@.len(),
            unchunk(data@, pos as int, Seq::empty()) == unchunk(data@, cur as int, out@),
        decreases n - cur,
    {
        let len = chunk_len(data[cur], data[cur + 1]);
        if len == 0 {
            return Some((out, cur + 2));
        }
        if n - (cur + 2) < len {
            return None;
        }
        let ghost before = out@;
        let mut i = cur + 2;
        while i < cur + 2 + len
            invariant
                cur + 2 <= i <= cur + 2 + len,
                cur + 2 + len <= n,
                n == data@.len(),
                out@ == before + data@.subrange(cur + 2, i as int),
            decreases cur + 2 + len - i,
        {
            out.push(data[i]);
            i += 1;
            assert(out@ =~= before + data@.subrange(cur + 2, i as int));
        }
        cur = cur + 2 + len;
    }
    None
}

/// Reading back what `write_message` framed yields the payload, whatever
/// follows it, and every chunk holds at most `max` bytes.
pub proof fn lemma_framing_round_trip(payload: Seq<u8>, max: nat, rest: Seq<u8>)
    requires
        1 <= max <= MAX_CHUNK_SIZE,
    ensures
        unchunk(chunked(payload, max) + rest, 0, Seq::empty()) == Some(
            (payload, chunked(payload, max).len() as int),
        ),
{
    lemma_unchunk_chunked(Seq::empty(), payload, max, rest, Seq::empty());
    assert(Seq::<u8>::empty() + chunked(payload, max) + rest =~= chunked(payload, max) + rest);
    assert(Seq::<u8>::empty() + payload =~= payload);
}

/// The wire form of a message sent as the given chunks: each with its
/// length header, then the terminator.
pub open spec fn framed(chunks: Seq<Seq<u8>>) -> Seq<u8>
    decreases chunks.len(),
{
    if chunks.len() == 0 {
        seq![0u8, 0u8]
    } else {
        chunk_header(chunks[0].len()) + chunks[0] + framed(chunks.skip(1))
    }
}

/// The payloads of the chunks, one after the other.
pub open spec fn joined(chunks: Seq<Seq<u8>>) -> Seq<u8>
    decreases chunks.len(),
{
    if chunks.len() == 0 {
        Seq::empty()
    } else {
        chunks[0] + joined(chunks.skip(1))
    }
}

/// Reading a message gives back its payload however it was split into
/// chunks of 1 to 65535 bytes, whatever follows it.
pub proof fn lemma_any_split_round_trip(chunks: Seq<Seq<u8>>, rest: Seq<u8>)
    requires
        forall|i: int| 0 <= i < chunks.len() ==> 1 <= #[trigger] chunks[i].len() <= MAX_CHUNK_SIZE,
    ensures
        unchunk(framed(chunks) + rest, 0, Seq::empty()) == Some(
            (joined(chunks), framed(chunks).len() as int),
        ),
{
    lemma_unchunk_framed(Seq::empty(), chunks, rest, Seq::empty());
    assert(Seq::<u8>::empty() + framed(chunks) + rest =~= framed(chunks) + rest);
    assert(Seq::<u8>::empty() + joined(chunks) =~= joined(chunks));
}

proof fn lemma_unchunk_framed(pre: Seq<u8>, chunks: Seq<Seq<u8>>, rest: Seq<u8>, acc: Seq<u8>)
    requires
        forall|i: int| 0 <= i < chunks.len() ==> 1 <= #[trigger] chunks[i].len() <= MAX_CHUNK_SIZE,
    ensures
        unchunk(pre + framed(chunks) + rest, pre.len() as int, acc) == Some(
            (acc + joined(chunks), (pre.len() + framed(chunks).len()) as int),
        ),
    decreases chunks.len(),
{
    let d = pre + framed(chunks) + rest;
    let pos = pre.len() as int;
    if chunks.len() == 0 {
        assert(d[pos] == 0u8 && d[pos + 1] == 0u8);
        assert(acc + joined(chunks) =~= acc);
    } else {
        let c = chunks[0];
        let k = c.len();
        let tail = chunks.skip(1);
        assert forall|i: int| 0 <= i < tail.len() implies 1 <= #[trigger] tail[i].len() <= MAX_CHUNK_SIZE by {
            assert(tail[i] == chunks[i + 1]);
        }
        let pre2 = pre + chunk_header(k) + c;
        assert(d =~= pre2 + framed(tail) + rest);
        assert(d[pos] == (k / 256) as u8);
        assert(d[pos + 1] == (k % 256) as u8);
        assert(d[pos] * 256 + d[pos + 1] == k);
        assert(d.subrange(pos + 2, pos + 2 + k) =~= c);
        lemma_unchunk_framed(pre2, tail, rest, acc + c);
        assert(acc + c + joined(tail) =~= acc + joined(chunks));
    }
}

proof fn lemma_unchunk_chunked(pre: Seq<u8>, payload: Seq<u8>, max: nat, rest: Seq<u8>, acc: Seq<u8>)
    requires
        1 <= max <= MAX_CHUNK_SIZE,
    ensures
        unchunk(pre + chunked(payload, max) + rest, pre.len() as int, acc) == Some(
            (acc + payload, (pre.len() + chunked(payload, max).len()) as int),
        ),
    decreases payload.len(),
{
    let d = pre + chunked(payload, max) + rest;
    let pos = pre.len() as int;
    if payload.len() == 0 {
        assert(d[pos] == 0u8 && d[pos + 1] == 0u8);
        assert(acc + payload =~= acc);
    } else {
        let k = if payload.len() > max { max } else { payload.len() };
        let tail = payload.skip(k as int);
        let pre2 = pre + chunk_header(k) + payload.take(k as int);
        assert(d =~= pre2 + chunked(tail, max) + rest);
        assert(d[pos] == (k / 256) as u8);
        assert(d[pos + 1] == (k % 256) as u8);
        assert(d[pos] * 256 + d[pos + 1] == k);
        assert(d.subrange(pos + 2, pos + 2 + k) =~= payload.take(k as int));
        lemma_unchunk_chunked(pre2, tail, max, rest, acc + payload.take(k as int));
        assert(acc + payload.take(k as int) + tail =~= acc + payload);
    }
}

} // verus!
