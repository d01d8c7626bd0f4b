//! Wire format: requests arrive as self-delimited JSON documents, responses
//! leave as big-endian binary frames.
use std::collections::HashMap;
use vstd::prelude::*;

verus! {

/// A request to launch one child process, tagged by a caller-chosen id.
pub struct SpawnRequest {
    pub id: u32,
    pub path: String,
    pub args: Vec<String>,
    pub cwd: String,
    pub env: HashMap<String, String>,
}

/// Which output pipe of a child a chunk was read from.
#[derive(Clone, Copy, Debug, PartialEq, Eq, Structural)]
pub enum OutputStreamType {
    Stdout,
    Stderr,
}

/// One event sent back to the client.
#[derive(Debug, PartialEq, Eq)]
pub enum SpawnResponse {
    /// A chunk of captured output.
    ChildOutput { request_id: u32, source: OutputStreamType, data: Vec<u8> },
    /// The terminal event of a request, with its exit code.
    ChildExit { request_id: u32, status: i32 },
}

/// The mathematical value of a response: its data as a sequence.
pub ghost enum ResponseView {
    Output { request_id: u32, source: OutputStreamType, data: Seq<u8> },
    Exit { request_id: u32, status: i32 },
}

impl View for SpawnResponse {
    type V = ResponseView;

    open spec fn view(&self) -> ResponseView {
        match self {
            SpawnResponse::ChildOutput { request_id, source, data } => ResponseView::Output {
                request_id: *request_id,
                source: *source,
                data: data@,
            },
            SpawnResponse::ChildExit { request_id, status } => ResponseView::Exit {
                request_id: *request_id,
                status: *status,
            },
        }
    }
}

/// Exit code reported when a child has no conventional exit code (killed by a
/// signal) or could not be launched at all.
pub const EXIT_SENTINEL: i32 = -1;

/// Exit code put on the wire for a child's exit status.
pub open spec fn exit_code_spec(code: Option<i32>) -> i32 {
    match code {
        Some(c) => c,
        None => EXIT_SENTINEL,
    }
}

/// Maps an optional exit code to the wire value, using the sentinel where
/// none exists.
pub fn exit_code(code: Option<i32>) -> (r: i32)
    ensures
        r == exit_code_spec(code),
{
    match code {
        Some(c) => c,
        None => EXIT_SENTINEL,
    }
}

/// The four bytes of `x`, most significant first.
pub open spec fn be_u32(x: u32) -> Seq<u8> {
    seq![(x >> 24u32) as u8, (x >> 16u32) as u8, (x >> 8u32) as u8, x as u8]
}

/// The tag byte of an output frame.
pub open spec fn stream_tag(source: OutputStreamType) -> u8 {
    match source {
        OutputStreamType::Stdout => 1,
        OutputStreamType::Stderr => 2,
    }
}

/// Tag byte of an exit frame.
pub const EXIT_TAG: u8 = 0;

/// The bytes of one response frame.
pub open spec fn frame_bytes(r: ResponseView) -> Seq<u8> {
    match r {
        ResponseView::Output { request_id, source, data } => be_u32(request_id) + seq![
            stream_tag(source),
        ] + be_u32(data.len() as u32) + data,
        ResponseView::Exit { request_id, status } => be_u32(request_id) + seq![EXIT_TAG]
            + be_u32(status as u32),
    }
}

/// Whether a response can be framed: an output chunk's length must fit the
/// 32-bit length field.
pub open spec fn encodable(r: ResponseView) -> bool {
    match r {
        ResponseView::Output { data, .. } => data.len() <= u32::MAX,
        ResponseView::Exit { .. } => true,
    }
}

fn put_u32_be(buf: &mut Vec<u8>, x: u32)
    ensures
        final(buf)@ == old(buf)@ + be_u32(x),
{
    buf.push((x >> 24u32) as u8);
    buf.push((x >> 16u32) as u8);
    buf.push((x >> 8u32) as u8);
    buf.push(x as u8);
    assert(buf@ =~= old(buf)@ + be_u32(x));
}


/// The request framing failed: the buffered bytes do not start with a JSON
/// document.
#[derive(Debug, PartialEq, Eq)]
pub struct MalformedRequest {
    pub reason: String,
}

/// What the JSON stream reader makes of a buffer: `Ok(Some(n))` when its first
/// `n` bytes hold one complete document, `Ok(None)` when more bytes are needed,
/// `Err(reason)` when they are not JSON.
pub uninterp spec fn json_scan(bytes: Seq<u8>) -> Result<Option<nat>, Seq<char>>;

/// Relies on serde_json's `StreamDeserializer` (`Deserializer::from_slice`,
/// `into_iter`, `next`, `byte_offset`, `Error::is_eof`): on a parsed value the
/// offset is the end of that value within the slice; an EOF error or a slice of
/// whitespace only means the document is not complete yet.
#[verifier::external_body]
fn scan_json_document(bytes: &[u8]) -> (r: Result<Option<usize>, String>)
    ensures
        json_scan(bytes@) == scan_view(r),
        r matches Ok(Some(n)) ==> 0 < n <= bytes@.len(),
        bytes@.len() == 0 ==> r matches Ok(None),
{
    let mut stream = serde_json::Deserializer::from_slice(bytes).into_iter::<serde_json::Value>();
    match stream.next() {
        None => Ok(None),
        Some(Ok(_)) => Ok(Some(stream.byte_offset())),
        Some(Err(e)) if e.is_eof() => Ok(None),
        Some(Err(e)) => Err(e.to_string()),
    }
}

/// The buffer and result of framing `buf` given the scan result `scan`.
pub open spec fn frame_outcome(buf: Seq<u8>, scan: Result<Option<nat>, Seq<char>>) -> (
    Seq<u8>,
    Result<Option<Seq<u8>>, Seq<char>>,
) {
    match scan {
        Ok(Some(n)) => (buf.subrange(n as int, buf.len() as int), Ok(Some(buf.subrange(0, n as int)))),
        Ok(None) => (buf, Ok(None)),
        Err(reason) => (buf, Err(reason)),
    }
}

/// The scan result as a mathematical value.
pub open spec fn scan_view(scan: Result<Option<usize>, String>) -> Result<Option<nat>, Seq<char>> {
    match scan {
        Ok(Some(n)) => Ok(Some(n as nat)),
        Ok(None) => Ok(None),
        Err(reason) => Err(reason@),
    }
}

/// The framing result as a mathematical value.
pub open spec fn decoded_view(r: Result<Option<Vec<u8>>, MalformedRequest>) -> Result<Option<Seq<u8>>, Seq<char>> {
    match r {
        Ok(Some(frame)) => Ok(Some(frame@)),
        Ok(None) => Ok(None),
        Err(e) => Err(e.reason@),
    }
}

/// Splits the first request document off `buf`, as the scan result `scan`
/// says: a complete document of `n` bytes is removed from the front and
/// returned; an incomplete one leaves the buffer as it is; an invalid one is
/// an error, and nothing is consumed.
pub fn take_document(buf: &mut Vec<u8>, scan: Result<Option<usize>, String>) -> (r: Result<
    Option<Vec<u8>>,
    MalformedRequest,
>)
    requires
        scan matches Ok(Some(n)) ==> n <= old(buf)@.len(),
    ensures
        (final(buf)@, decoded_view(r)) == frame_outcome(old(buf)@, scan_view(scan)),
{
    match scan {
        Ok(Some(n)) => {
            let mut frame = buf.split_off(n);
            std::mem::swap(buf, &mut frame);
            Ok(Some(frame))
        },
        Ok(None) => Ok(None),
        Err(reason) => Err(MalformedRequest { reason }),
    }
}

/// The complete documents at the front of `buf`, in order, with the number of
/// bytes they take; an error where the first document that is not complete is
/// not JSON either.
pub open spec fn documents(buf: Seq<u8>) -> Result<(Seq<Seq<u8>>, nat), Seq<char>>
    decreases buf.len(),
{
    match json_scan(buf) {
        Ok(Some(n)) => if 0 < n <= buf.len() {
            prepend_document(buf.subrange(0, n as int), documents(buf.subrange(n as int, buf.len() as int)))
        } else {
            Ok((Seq::empty(), 0))
        },
        Ok(None) => Ok((Seq::empty(), 0)),
        Err(reason) => Err(reason),
    }
}

pub open spec fn prepend_document(doc: Seq<u8>, rest: Result<(Seq<Seq<u8>>, nat), Seq<char>>) -> Result<
    (Seq<Seq<u8>>, nat),
    Seq<char>,
> {
    match rest {
        Ok((docs, used)) => Ok((seq![doc] + docs, (doc.len() + used) as nat)),
        Err(reason) => Err(reason),
    }
}

/// The buffer and result of taking every complete document off `buf`: on an
/// error nothing is consumed.
pub open spec fn documents_outcome(buf: Seq<u8>) -> (Seq<u8>, Result<Seq<Seq<u8>>, Seq<char>>) {
    match documents(buf) {
        Ok((docs, used)) => (buf.subrange(used as int, buf.len() as int), Ok(docs)),
        Err(reason) => (buf, Err(reason)),
    }
}

/// A list of documents as mathematical values.
pub open spec fn documents_view(docs: Seq<Vec<u8>>) -> Seq<Seq<u8>> {
    docs.map_values(|d: Vec<u8>| d@)
}

/// The result of taking every document, as a mathematical value.
pub open spec fn decoded_all_view(r: Result<Vec<Vec<u8>>, MalformedRequest>) -> Result<Seq<Seq<u8>>, Seq<char>> {
    match r {
        Ok(docs) => Ok(documents_view(docs@)),
        Err(e) => Err(e.reason@),
    }
}

/// Frames requests on a connection and encodes responses onto it.
pub struct SpawnCodec;

impl SpawnCodec {
    /// Takes the first complete request document off the front of `buf`.
    /// Bytes are consumed only together with a complete document.
    pub fn decode(&mut self, buf: &mut Vec<u8>) -> (r: Result<Option<Vec<u8>>, MalformedRequest>)
        ensures
            (final(buf)@, decoded_view(r)) == frame_outcome(old(buf)@, json_scan(old(buf)@)),
            old(buf)@.len() == 0 ==> (r matches Ok(None) && final(buf)@ == old(buf)@),
    {
        let scan = scan_json_document(buf.as_slice());
        take_document(buf, scan)
    }

    /// Takes every complete request document off the front of `buf`, in
    /// order; the bytes consumed are theirs. Where a document that is not
    /// complete is not JSON either, it fails and consumes nothing.
    pub fn decode_all(&mut self, buf: &mut Vec<u8>) -> (r: Result<Vec<Vec<u8>>, MalformedRequest>)
        ensures
            (final(buf)@, decoded_all_view(r)) == documents_outcome(old(buf)@),
    {
        let mut frames: Vec<Vec<u8>> = Vec::new();
        let mut pos: usize = 0;
        proof {
            assert(buf@.subrange(0, buf@.len() as int) =~= buf@);
            match documents(buf@) {
                Ok((docs, used)) => assert(documents_view(frames@) + docs =~= docs),
                Err(_) => {},
            }
        }
        loop
            invariant
                buf@ == old(buf)@,
                pos <= buf@.len(),
                documents(old(buf)@) == ({
                    let found = documents_view(frames@);
                    match documents(buf@.subrange(pos as int, buf@.len() as int)) {
                        Ok((docs, used)) => Ok::<(Seq<Seq<u8>>, nat), Seq<char>>((found + docs, (pos + used) as nat)),
                        Err(reason) => Err(reason),
                    }
                }),
            ensures
                buf@ == old(buf)@,
                pos <= buf@.len(),
                documents(old(buf)@) == Ok::<(Seq<Seq<u8>>, nat), Seq<char>>(
                    (documents_view(frames@) + Seq::empty(), pos as nat),
                ),
            decreases buf@.len() - pos,
        {
            let rest = vstd::slice::slice_subrange(buf.as_slice(), pos, buf.len());
            match scan_json_document(rest) {
                Ok(Some(n)) => {
                    let doc = vstd::slice::slice_to_vec(vstd::slice::slice_subrange(rest, 0, n));
                    proof {
                        let whole = buf@.subrange(pos as int, buf@.len() as int);
                        assert(whole.subrange(n as int, whole.len() as int) =~= buf@.subrange(
                            pos + n,
                            buf@.len() as int,
                        ));
                        assert(documents_view(frames@.push(doc)) =~= documents_view(frames@) + seq![doc@]);
                        match documents(buf@.subrange(pos + n, buf@.len() as int)) {
                            Ok((docs, used)) => {
                                assert(documents_view(frames@) + (seq![doc@] + docs) =~= documents_view(
                                    frames@,
                                ) + seq![doc@] + docs);
                            },
                            Err(_) => {},
                        }
                    }
                    frames.push(doc);
                    pos = pos + n;
                },
                Ok(None) => {
                    assert(documents(rest@) == Ok::<(Seq<Seq<u8>>, nat), Seq<char>>((Seq::empty(), 0)));
                    break;
                },
                Err(reason) => {
                    assert(documents(rest@) == Err::<(Seq<Seq<u8>>, nat), Seq<char>>(reason@));
                    return Err(MalformedRequest { reason });
                },
            }
        }
        proof {
            assert(documents_view(frames@) + Seq::<Seq<u8>>::empty() =~= documents_view(frames@));
        }
        let mut tail = buf.split_off(pos);
        std::mem::swap(buf, &mut tail);
        Ok(frames)
    }

    /// Appends the wire frame of `msg` to `buf`.
    pub fn encode(&mut self, msg: SpawnResponse, buf: &mut Vec<u8>)
        requires
            encodable(msg@),
        ensures
            final(buf)@ == old(buf)@ + frame_bytes(msg@),
    {
        match msg {
            SpawnResponse::ChildOutput { request_id, source, data } => {
                put_u32_be(buf, request_id);
                match source {
                    OutputStreamType::Stdout => buf.push(1),
                    OutputStreamType::Stderr => buf.push(2),
                }
                put_u32_be(buf, data.len() as u32);
                let mut data = data;
                buf.append(&mut data);
            },
            SpawnResponse::ChildExit { request_id, status } => {
                put_u32_be(buf, request_id);
                buf.push(EXIT_TAG);
                put_u32_be(buf, status as u32);
            },
        }
        assert(buf@ =~= old(buf)@ + frame_bytes(msg@));
    }
}

/// The output event for the bytes `data` read by `dec`: none for no bytes.
pub open spec fn chunk_of(dec: ChildOutputStreamDecoder, data: Seq<u8>) -> Option<ResponseView> {
    if data.len() == 0 {
        None
    } else {
        Some(ResponseView::Output { request_id: dec.request_id, source: dec.source, data })
    }
}

/// An optional response as a mathematical value.
pub open spec fn chunk_view(r: Option<SpawnResponse>) -> Option<ResponseView> {
    match r {
        Some(resp) => Some(resp@),
        None => None,
    }
}

/// Turns the bytes read from one output pipe of a child into output events.
pub struct ChildOutputStreamDecoder {
    pub request_id: u32,
    pub source: OutputStreamType,
}

impl ChildOutputStreamDecoder {
    /// A decoder for the standard output of request `request_id`.
    pub fn from_stdout(request_id: u32) -> (r: Self)
        ensures
            r.request_id == request_id,
            r.source == OutputStreamType::Stdout,
    {
        Self { request_id, source: OutputStreamType::Stdout }
    }

    /// A decoder for the standard error of request `request_id`.
    pub fn from_stderr(request_id: u32) -> (r: Self)
        ensures
            r.request_id == request_id,
            r.source == OutputStreamType::Stderr,
    {
        Self { request_id, source: OutputStreamType::Stderr }
    }

    /// Takes everything buffered so far as one output chunk; an empty buffer
    /// gives no event.
    pub fn decode(&mut self, buf: &mut Vec<u8>) -> (r: Option<SpawnResponse>)
        ensures
            *final(self) == *old(self),
            final(buf)@.len() == 0,
            chunk_view(r) == chunk_of(*old(self), old(buf)@),
    {
        if buf.len() > 0 {
            let mut data: Vec<u8> = Vec::new();
            std::mem::swap(buf, &mut data);
            Some(SpawnResponse::ChildOutput { request_id: self.request_id, source: self.source, data })
        } else {
            None
        }
    }
}

} // verus!
