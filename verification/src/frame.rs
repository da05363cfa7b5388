//! Frames on the control connection: texts that end with a NUL byte.

use bytes::BytesMut;
use tokio_util::codec::{AnyDelimiterCodec, AnyDelimiterCodecError, Decoder, Encoder};
use vstd::prelude::*;
use vstd::utf8::{encode_scalar, encode_utf8};

use crate::shared::MAX_FRAME_LENGTH;

verus! {

/// The error of [`AnyDelimiterCodec`]; only its presence matters here.
#[verifier::external_type_specification]
#[verifier::external_body]
pub struct ExAnyDelimiterCodecError(AnyDelimiterCodecError);

/// Whether no delimiter stands among the first `n` bytes.
pub open spec fn undelimited(buf: Seq<u8>, delimiters: Seq<u8>, n: int) -> bool {
    forall|i: int| 0 <= i < n ==> !delimiters.contains(#[trigger] buf[i])
}

/// Whether a buffer starts with a chunk that ends in a delimiter, and goes on with `rest`.
pub open spec fn starts_with_chunk(
    buf: Seq<u8>,
    delimiters: Seq<u8>,
    chunk: Seq<u8>,
    rest: Seq<u8>,
) -> bool {
    &&& chunk.len() < buf.len()
    &&& chunk == buf.take(chunk.len() as int)
    &&& rest == buf.skip(chunk.len() as int + 1)
    &&& delimiters.contains(buf[chunk.len() as int])
    &&& undelimited(buf, delimiters, chunk.len() as int)
}

/// [`AnyDelimiterCodec::decode`] of a new codec with a maximum length: the bytes before
/// the first delimiter, where it stands within that length, and what follows it. It fails
/// where the buffer is longer than the maximum without such a delimiter.
#[verifier::external_body]
pub(crate) fn decode_chunk(buf: &[u8], delimiters: &[u8], max_length: usize) -> (res: Result<
    Option<(Vec<u8>, Vec<u8>)>,
    AnyDelimiterCodecError,
>)
    ensures
        match res {
            Ok(Some((chunk, rest))) => {
                chunk@.len() <= max_length && starts_with_chunk(buf@, delimiters@, chunk@, rest@)
            },
            Ok(None) => {
                buf@.len() <= max_length && undelimited(buf@, delimiters@, buf@.len() as int)
            },
            Err(_) => {
                buf@.len() > max_length && undelimited(buf@, delimiters@, max_length + 1)
            },
        },
{
    let mut codec = AnyDelimiterCodec::new_with_max_length(
        delimiters.to_vec(),
        delimiters.to_vec(),
        max_length,
    );
    let mut bytes = BytesMut::from(buf);
    let decoded = codec.decode(&mut bytes)?;
    Ok(decoded.map(|chunk| (chunk.to_vec(), bytes.to_vec())))
}

/// [`AnyDelimiterCodec::decode_eof`] of a new codec with a maximum length: as
/// [`AnyDelimiterCodec::decode`], but bytes without a delimiter are a chunk too.
#[verifier::external_body]
pub(crate) fn decode_last_chunk(buf: &[u8], delimiters: &[u8], max_length: usize) -> (res: Result<
    Option<(Vec<u8>, Vec<u8>)>,
    AnyDelimiterCodecError,
>)
    ensures
        match res {
            Ok(Some((chunk, rest))) => {
                &&& chunk@.len() <= max_length
                &&& if undelimited(buf@, delimiters@, buf@.len() as int) {
                    buf@.len() > 0 && chunk@ == buf@ && rest@ == Seq::<u8>::empty()
                } else {
                    starts_with_chunk(buf@, delimiters@, chunk@, rest@)
                }
            },
            Ok(None) => buf@.len() == 0,
            Err(_) => {
                buf@.len() > max_length && undelimited(buf@, delimiters@, max_length + 1)
            },
        },
{
    let mut codec = AnyDelimiterCodec::new_with_max_length(
        delimiters.to_vec(),
        delimiters.to_vec(),
        max_length,
    );
    let mut bytes = BytesMut::from(buf);
    let decoded = codec.decode_eof(&mut bytes)?;
    Ok(decoded.map(|chunk| (chunk.to_vec(), bytes.to_vec())))
}

/// [`AnyDelimiterCodec::encode`] into an empty buffer: the bytes of the text, then those
/// that end a chunk. It does not fail.
#[verifier::external_body]
pub(crate) fn encode_chunk(text: &str, terminator: &[u8]) -> (res: Vec<u8>)
    ensures
        res@ == encode_utf8(text@) + terminator@,
{
    let mut codec = AnyDelimiterCodec::new(terminator.to_vec(), terminator.to_vec());
    let mut bytes = BytesMut::new();
    codec.encode(text, &mut bytes).expect("a text can be encoded");
    bytes.to_vec()
}

/// The number of bytes before the first NUL, or of all bytes where there is none.
pub open spec fn frame_len(buf: Seq<u8>) -> nat
    decreases buf.len(),
{
    if buf.len() == 0 || buf[0] == 0 {
        0
    } else {
        1 + frame_len(buf.drop_first())
    }
}

/// The bytes of a frame that carries a text.
pub open spec fn frame_bytes(text: Seq<char>) -> Seq<u8> {
    encode_utf8(text).push(0)
}

/// What a [`Delimited`] holds.
pub struct DelimitedView {
    /// The bytes that were received and not yet handed out.
    pub inbox: Seq<u8>,
    /// The last read got nothing: the stream was at its end.
    pub ended: bool,
    /// Something was read since the last frame was looked for in vain.
    pub readable: bool,
    /// A frame was found too long, and the end is to be told once.
    pub failed: bool,
    /// The rest of a frame that was too long is to be left out.
    pub discarding: bool,
}

/// What has come of the bytes received so far.
#[derive(Debug)]
pub enum Received {
    /// The next frame.
    Frame(Vec<u8>),
    /// Read more.
    ReadMore,
    /// There are no more frames.
    End,
    /// A frame is too long.
    TooLong,
}

/// What a [`Received`] says.
pub enum ReceivedView {
    /// The next frame.
    Frame(Seq<u8>),
    /// Read more.
    ReadMore,
    /// There are no more frames.
    End,
    /// A frame is too long.
    TooLong,
}

impl View for Received {
    type V = ReceivedView;

    open spec fn view(&self) -> ReceivedView {
        match self {
            Received::Frame(frame) => ReceivedView::Frame(frame@),
            Received::ReadMore => ReceivedView::ReadMore,
            Received::End => ReceivedView::End,
            Received::TooLong => ReceivedView::TooLong,
        }
    }
}

/// A stream of which nothing was received.
pub open spec fn unread() -> DelimitedView {
    DelimitedView {
        inbox: Seq::empty(),
        ended: false,
        readable: false,
        failed: false,
        discarding: false,
    }
}

/// The stream after a read; an empty one means that the stream is at its end. A second
/// one in a row brings nothing new.
pub open spec fn fed(v: DelimitedView, bytes: Seq<u8>) -> DelimitedView {
    DelimitedView {
        inbox: v.inbox + bytes,
        ended: bytes.len() == 0,
        readable: v.readable || bytes.len() > 0 || !v.ended,
        ..v
    }
}

/// The stream without the rest of a frame that was too long, as far as it has come.
pub open spec fn discarded(v: DelimitedView) -> DelimitedView {
    let n = frame_len(v.inbox);
    if !v.discarding {
        v
    } else if n < v.inbox.len() {
        DelimitedView { inbox: v.inbox.skip(n as int + 1), discarding: false, ..v }
    } else {
        DelimitedView { inbox: Seq::empty(), ..v }
    }
}

/// The stream after the next frame was looked for in what was read, and what was found.
/// A frame is too long where no NUL stands within [`MAX_FRAME_LENGTH`]. Bytes at the end
/// of the stream are a frame without a NUL.
pub open spec fn searched(v: DelimitedView) -> (DelimitedView, ReceivedView) {
    let n = frame_len(v.inbox);
    if n < v.inbox.len() && n <= MAX_FRAME_LENGTH {
        (
            DelimitedView { inbox: v.inbox.skip(n as int + 1), ..v },
            ReceivedView::Frame(v.inbox.take(n as int)),
        )
    } else if v.inbox.len() > MAX_FRAME_LENGTH {
        (DelimitedView { failed: true, discarding: true, ..v }, ReceivedView::TooLong)
    } else if !v.ended {
        (DelimitedView { readable: false, ..v }, ReceivedView::ReadMore)
    } else if v.inbox.len() == 0 {
        (DelimitedView { readable: false, ..v }, ReceivedView::End)
    } else {
        (
            DelimitedView { inbox: Seq::empty(), ..v },
            ReceivedView::Frame(v.inbox),
        )
    }
}

/// The stream after it was asked for a frame, and what it said. After a frame that was
/// too long it tells of the end once; more reads then bring the frames that follow.
pub open spec fn received(v: DelimitedView) -> (DelimitedView, ReceivedView) {
    if v.failed {
        (DelimitedView { failed: false, readable: false, ..v }, ReceivedView::End)
    } else if v.readable {
        searched(discarded(v))
    } else if v.ended {
        (v, ReceivedView::End)
    } else {
        (v, ReceivedView::ReadMore)
    }
}

/// Splits a stream of bytes into frames delimited by NUL bytes.
#[derive(Debug)]
pub struct Delimited {
    inbox: Vec<u8>,
    ended: bool,
    readable: bool,
    failed: bool,
    discarding: bool,
}

impl View for Delimited {
    type V = DelimitedView;

    closed spec fn view(&self) -> DelimitedView {
        DelimitedView {
            inbox: self.inbox@,
            ended: self.ended,
            readable: self.readable,
            failed: self.failed,
            discarding: self.discarding,
        }
    }
}

impl Delimited {
    /// A stream of which nothing was received.
    pub fn new() -> (res: Delimited)
        ensures
            res@ == unread(),
    {
        Delimited {
            inbox: Vec::new(),
            ended: false,
            readable: false,
            failed: false,
            discarding: false,
        }
    }

    /// Takes what a read got; nothing means that the stream is at its end.
    pub fn feed(&mut self, bytes: &[u8])
        ensures
            final(self)@ == fed(old(self)@, bytes@),
    {
        let ghost before = self.inbox@;
        self.inbox.extend_from_slice(bytes);
        assert(self.inbox@ =~= before + bytes@);
        if bytes.len() > 0 || !self.ended {
            self.readable = true;
        }
        self.ended = bytes.len() == 0;
    }

    /// Leaves out the rest of a frame that was too long, as far as it has come.
    fn discard(&mut self)
        ensures
            final(self)@ == discarded(old(self)@),
    {
        if !self.discarding {
            return;
        }
        let delimiters: [u8; 1] = [0];
        let ghost buf = self.inbox@;
        let decoded = decode_chunk(self.inbox.as_slice(), delimiters.as_slice(), usize::MAX);
        proof {
            assert(delimiters@ =~= seq![0u8]);
            lemma_frame_len(buf);
            lemma_undelimited(buf);
        }
        match decoded {
            Ok(Some((chunk, rest))) => {
                proof {
                    lemma_starts_with_chunk(buf, chunk@, rest@);
                }
                self.inbox = rest;
                self.discarding = false;
            },
            _ => {
                self.inbox = Vec::new();
            },
        }
    }

    /// Looks for the next frame in what was read.
    fn search(&mut self) -> (res: Received)
        ensures
            final(self)@ == searched(old(self)@).0,
            res@ == searched(old(self)@).1,
    {
        let delimiters: [u8; 1] = [0];
        let ghost buf = self.inbox@;
        let decoded = if self.ended {
            decode_last_chunk(self.inbox.as_slice(), delimiters.as_slice(), MAX_FRAME_LENGTH)
        } else {
            decode_chunk(self.inbox.as_slice(), delimiters.as_slice(), MAX_FRAME_LENGTH)
        };
        proof {
            assert(delimiters@ =~= seq![0u8]);
            lemma_frame_len(buf);
            lemma_undelimited(buf);
        }
        match decoded {
            Ok(Some((chunk, rest))) => {
                proof {
                    if !undelimited(buf, delimiters@, buf.len() as int) {
                        lemma_starts_with_chunk(buf, chunk@, rest@);
                    }
                }
                self.inbox = rest;
                Received::Frame(chunk)
            },
            Ok(None) => {
                self.readable = false;
                if self.ended {
                    Received::End
                } else {
                    Received::ReadMore
                }
            },
            Err(_) => {
                self.failed = true;
                self.discarding = true;
                Received::TooLong
            },
        }
    }

    /// The next frame, if it has been received.
    pub fn recv(&mut self) -> (res: Received)
        ensures
            final(self)@ == received(old(self)@).0,
            res@ == received(old(self)@).1,
    {
        if self.failed {
            self.failed = false;
            self.readable = false;
            Received::End
        } else if self.readable {
            self.discard();
            self.search()
        } else if self.ended {
            Received::End
        } else {
            Received::ReadMore
        }
    }

    /// The bytes to send for a text.
    pub fn send(text: &str) -> (res: Vec<u8>)
        ensures
            res@ == frame_bytes(text@),
    {
        let terminator: [u8; 1] = [0];
        let res: Vec<u8> = encode_chunk(text, terminator.as_slice());
        assert(terminator@ =~= seq![0u8]);
        assert(res@ =~= frame_bytes(text@));
        res
    }

    /// The bytes that were received and not yet handed out.
    pub fn into_parts(self) -> (res: Vec<u8>)
        ensures
            res@ == self@.inbox,
    {
        self.inbox
    }
}

proof fn lemma_frame_len(buf: Seq<u8>)
    ensures
        frame_len(buf) <= buf.len(),
        forall|i: int| 0 <= i < frame_len(buf) ==> #[trigger] buf[i] != 0,
        frame_len(buf) < buf.len() ==> buf[frame_len(buf) as int] == 0,
    decreases buf.len(),
{
    if buf.len() > 0 && buf[0] != 0 {
        let rest = buf.drop_first();
        lemma_frame_len(rest);
        assert forall|i: int| 0 <= i < frame_len(buf) implies #[trigger] buf[i] != 0 by {
            if i > 0 {
                assert(rest[i - 1] == buf[i]);
            }
        }
    }
}

proof fn lemma_undelimited(buf: Seq<u8>)
    ensures
        forall|n: int|
            0 <= n <= buf.len() ==> (#[trigger] undelimited(buf, seq![0u8], n) <==> n <= frame_len(
                buf,
            )),
{
    lemma_frame_len(buf);
    assert(seq![0u8].contains(0u8)) by {
        assert(seq![0u8][0] == 0u8);
    }
    assert forall|n: int| 0 <= n <= buf.len() implies (#[trigger] undelimited(buf, seq![0u8], n)
        <==> n <= frame_len(buf)) by {
        if n > frame_len(buf) {
            assert(seq![0u8].contains(buf[frame_len(buf) as int]));
        } else {
            assert forall|i: int| 0 <= i < n implies !seq![0u8].contains(#[trigger] buf[i]) by {
                assert(buf[i] != 0);
            }
        }
    }
}

proof fn lemma_starts_with_chunk(buf: Seq<u8>, chunk: Seq<u8>, rest: Seq<u8>)
    requires
        starts_with_chunk(buf, seq![0u8], chunk, rest),
    ensures
        chunk.len() == frame_len(buf),
{
    lemma_frame_len(buf);
    lemma_undelimited(buf);
    assert(undelimited(buf, seq![0u8], chunk.len() as int));
}

proof fn lemma_frame_len_is(frame: Seq<u8>, rest: Seq<u8>)
    requires
        forall|i: int| 0 <= i < frame.len() ==> #[trigger] frame[i] != 0,
    ensures
        frame_len(frame.push(0) + rest) == frame.len(),
    decreases frame.len(),
{
    let all = frame.push(0) + rest;
    if frame.len() > 0 {
        let shorter = frame.drop_first();
        assert forall|i: int| 0 <= i < shorter.len() implies #[trigger] shorter[i] != 0 by {
            assert(shorter[i] == frame[i + 1]);
        }
        lemma_frame_len_is(shorter, rest);
        assert(all.drop_first() =~= shorter.push(0) + rest);
        assert(all[0] == frame[0]);
    }
}

proof fn lemma_no_nul_scalar(scalar: u32)
    requires
        scalar != 0,
        vstd::utf8::is_scalar(scalar),
    ensures
        forall|i: int|
            0 <= i < encode_scalar(scalar).len() ==> #[trigger] encode_scalar(scalar)[i] != 0,
{
    assert(scalar <= 0x7F && scalar != 0 ==> (scalar & 0x7F) as u8 != 0) by (bit_vector);
    assert(0xC0u8 | ((scalar >> 6) & 0x1F) as u8 != 0) by (bit_vector);
    assert(0xE0u8 | ((scalar >> 12) & 0x0F) as u8 != 0) by (bit_vector);
    assert(0xF0u8 | ((scalar >> 18) & 0x7) as u8 != 0) by (bit_vector);
    assert(0x80u8 | (scalar & 0x3F) as u8 != 0) by (bit_vector);
    assert(0x80u8 | ((scalar >> 6) & 0x3F) as u8 != 0) by (bit_vector);
    assert(0x80u8 | ((scalar >> 12) & 0x3F) as u8 != 0) by (bit_vector);
}

proof fn lemma_no_nul_bytes(text: Seq<char>)
    requires
        forall|i: int| 0 <= i < text.len() ==> #[trigger] text[i] != '\0',
    ensures
        forall|i: int| 0 <= i < encode_utf8(text).len() ==> #[trigger] encode_utf8(text)[i] != 0,
    decreases text.len(),
{
    if text.len() > 0 {
        let first = encode_scalar(text[0] as u32);
        let rest = text.drop_first();
        vstd::utf8::char_is_scalar(text[0]);
        vstd::utf8::char_u32_cast(text[0], text[0] as u32);
        lemma_no_nul_scalar(text[0] as u32);
        assert forall|i: int| 0 <= i < rest.len() implies #[trigger] rest[i] != '\0' by {
            assert(rest[i] == text[i + 1]);
        }
        lemma_no_nul_bytes(rest);
        assert forall|i: int| 0 <= i < encode_utf8(text).len() implies #[trigger] encode_utf8(
            text,
        )[i] != 0 by {
            if i < first.len() {
                assert(encode_utf8(text)[i] == first[i]);
            } else {
                assert(encode_utf8(text)[i] == encode_utf8(rest)[i - first.len()]);
            }
        }
    }
}

/// A stream in which a frame may be found.
pub open spec fn searchable(inbox: Seq<u8>, ended: bool) -> DelimitedView {
    DelimitedView { inbox, ended, readable: true, failed: false, discarding: false }
}

/// A text that a frame can carry: without a NUL and no longer than a frame may be.
pub open spec fn carried(text: Seq<char>) -> bool {
    &&& forall|i: int| 0 <= i < text.len() ==> #[trigger] text[i] != '\0'
    &&& encode_utf8(text).len() <= MAX_FRAME_LENGTH
}

/// A text is received as it was sent, and what follows it stays to be received.
pub proof fn law_frame_round_trip(text: Seq<char>, rest: Seq<u8>, ended: bool)
    requires
        carried(text),
    ensures
        received(searchable(frame_bytes(text) + rest, ended)) == (
            searchable(rest, ended),
            ReceivedView::Frame(encode_utf8(text)),
        ),
{
    let inbox = frame_bytes(text) + rest;
    lemma_no_nul_bytes(text);
    lemma_frame_len_is(encode_utf8(text), rest);
    assert(inbox.take(encode_utf8(text).len() as int) =~= encode_utf8(text));
    assert(inbox.skip(encode_utf8(text).len() as int + 1) =~= rest);
}

/// It does not matter how the bytes of a stream are cut into reads.
pub proof fn law_frames_ignore_chunking(v: DelimitedView, first: Seq<u8>, second: Seq<u8>)
    requires
        first.len() > 0,
        second.len() > 0,
    ensures
        fed(fed(v, first), second) == fed(v, first + second),
{
    assert(v.inbox + first + second =~= v.inbox + (first + second));
}

proof fn lemma_frame_len_append(buf: Seq<u8>, more: Seq<u8>)
    ensures
        frame_len(buf) < buf.len() ==> frame_len(buf + more) == frame_len(buf),
        frame_len(buf) == buf.len() ==> frame_len(buf + more) >= buf.len(),
    decreases buf.len(),
{
    if buf.len() > 0 && buf[0] != 0 {
        assert((buf + more).drop_first() =~= buf.drop_first() + more);
        lemma_frame_len_append(buf.drop_first(), more);
    }
}

/// A frame that has been received, or is too long, stays so whatever comes after it.
pub proof fn law_frame_is_stable(inbox: Seq<u8>, more: Seq<u8>)
    requires
        received(searchable(inbox, false)).1 !is ReadMore,
        more.len() > 0,
    ensures
        received(fed(searchable(inbox, false), more)).1 == received(
            searchable(inbox, false),
        ).1,
        received(searchable(inbox, false)).1 is Frame ==> received(
            fed(searchable(inbox, false), more),
        ).0.inbox == received(searchable(inbox, false)).0.inbox + more,
{
    lemma_frame_len(inbox);
    lemma_frame_len_append(inbox, more);
    let n = frame_len(inbox);
    if n < inbox.len() {
        assert((inbox + more).take(n as int) =~= inbox.take(n as int));
        assert((inbox + more).skip(n as int + 1) =~= inbox.skip(n as int + 1) + more);
    }
}

/// A frame that is too long is told of, then the end, and then it is left out: the frame
/// behind its NUL is received after the next read, as if nothing had stood before it.
pub proof fn law_long_frame_is_left_out(
    inbox: Seq<u8>,
    ended: bool,
    more: Seq<u8>,
    text: Seq<char>,
    rest: Seq<u8>,
)
    requires
        frame_len(inbox) == inbox.len() > MAX_FRAME_LENGTH,
        frame_len(more) < more.len(),
        more.skip(frame_len(more) as int + 1) == frame_bytes(text) + rest,
        carried(text),
    ensures
        ({
            let long = received(searchable(inbox, ended));
            let told = received(long.0);
            let next = received(fed(told.0, more));
            &&& long.1 == ReceivedView::TooLong
            &&& told.1 == ReceivedView::End
            &&& next.1 == ReceivedView::Frame(encode_utf8(text))
            &&& next.0 == searchable(rest, false)
        }),
{
    let told = received(received(searchable(inbox, ended)).0).0;
    let v = fed(told, more);
    assert(v.inbox == inbox + more);
    lemma_frame_len_joins(inbox, more);
    assert((inbox + more).skip(
        inbox.len() as int + frame_len(more) as int + 1,
    ) =~= more.skip(
        frame_len(more) as int + 1,
    ));
    assert(discarded(v) == searchable(frame_bytes(text) + rest, false));
    law_frame_round_trip(text, rest, false);
}

proof fn lemma_frame_len_joins(buf: Seq<u8>, more: Seq<u8>)
    requires
        frame_len(buf) == buf.len(),
    ensures
        frame_len(buf + more) == buf.len() + frame_len(more),
    decreases buf.len(),
{
    if buf.len() == 0 {
        assert(buf + more =~= more);
    } else {
        assert((buf + more).drop_first() =~= buf.drop_first() + more);
        lemma_frame_len(buf);
        lemma_frame_len(buf.drop_first());
        lemma_frame_len_joins(buf.drop_first(), more);
    }
}

/// The frames received until there is none, and the stream after that.
pub open spec fn drained(v: DelimitedView) -> (DelimitedView, Seq<Seq<u8>>)
    decreases v.inbox.len(),
{
    let next = received(v);
    match next.1 {
        ReceivedView::Frame(frame) => {
            let later = drained(next.0);
            (later.0, seq![frame] + later.1)
        },
        _ => (next.0, Seq::empty()),
    }
}

/// The frames received over several reads, each followed by asking for frames until
/// there is none, and the stream after that.
pub open spec fn delivered(v: DelimitedView, reads: Seq<Seq<u8>>) -> (
    DelimitedView,
    Seq<Seq<u8>>,
)
    decreases reads.len(),
{
    if reads.len() == 0 {
        (v, Seq::empty())
    } else {
        let first = drained(fed(v, reads[0]));
        let later = delivered(first.0, reads.drop_first());
        (later.0, first.1 + later.1)
    }
}

/// The bytes of some reads, one after the other.
pub open spec fn joined(reads: Seq<Seq<u8>>) -> Seq<u8>
    decreases reads.len(),
{
    if reads.len() == 0 {
        Seq::empty()
    } else {
        reads[0] + joined(reads.drop_first())
    }
}

/// The bytes of the frames of some texts, one after the other.
pub open spec fn all_frame_bytes(sent: Seq<Seq<char>>) -> Seq<u8>
    decreases sent.len(),
{
    if sent.len() == 0 {
        Seq::empty()
    } else {
        frame_bytes(sent[0]) + all_frame_bytes(sent.drop_first())
    }
}

/// The bytes of each of some texts.
pub open spec fn all_encoded(sent: Seq<Seq<char>>) -> Seq<Seq<u8>> {
    Seq::new(sent.len(), |i: int| encode_utf8(sent[i]))
}

/// Any number of texts whose frames have been read are received in order, before or after
/// the end of the stream; nothing but the end follows them.
pub proof fn law_all_frames_are_received(sent: Seq<Seq<char>>, ended: bool)
    requires
        forall|i: int| 0 <= i < sent.len() ==> carried(#[trigger] sent[i]),
    ensures
        ({
            let (after, frames) = drained(searchable(all_frame_bytes(sent), ended));
            &&& frames == all_encoded(sent)
            &&& after == (DelimitedView { ended, ..unread() })
            &&& received(after).1 == (if ended {
                ReceivedView::End
            } else {
                ReceivedView::ReadMore
            })
        }),
    decreases sent.len(),
{
    if sent.len() == 0 {
        assert(all_encoded(sent) =~= Seq::empty());
    } else {
        let rest = sent.drop_first();
        assert(carried(sent[0]));
        assert forall|i: int| 0 <= i < rest.len() implies carried(#[trigger] rest[i]) by {
            assert(rest[i] == sent[i + 1]);
        }
        law_frame_round_trip(sent[0], all_frame_bytes(rest), ended);
        law_all_frames_are_received(rest, ended);
        assert(seq![encode_utf8(sent[0])] + all_encoded(rest) =~= all_encoded(sent));
    }
}

/// Where the bytes read and those still to come are the frames of some texts, asking for
/// frames gives the first of the texts and leaves the others.
proof fn lemma_drained(inbox: Seq<u8>, more: Seq<u8>, sent: Seq<Seq<char>>) -> (n: int)
    requires
        inbox + more == all_frame_bytes(sent),
        forall|i: int| 0 <= i < sent.len() ==> carried(#[trigger] sent[i]),
    ensures
        0 <= n <= sent.len(),
        ({
            let (after, frames) = drained(searchable(inbox, false));
            &&& frames == all_encoded(sent.take(n))
            &&& after == (DelimitedView { readable: false, ..searchable(after.inbox, false) })
            &&& after.inbox + more == all_frame_bytes(sent.skip(n))
        }),
    decreases sent.len(),
{
    let v = searchable(inbox, false);
    if sent.len() == 0 {
        assert(inbox.len() == 0) by {
            assert((inbox + more).len() == 0);
        }
        assert(all_encoded(sent.take(0)) =~= Seq::empty());
        assert(sent.skip(0) =~= sent);
        0
    } else {
        let first = frame_bytes(sent[0]);
        let rest = sent.drop_first();
        let n = encode_utf8(sent[0]).len() as int;
        assert(carried(sent[0]));
        assert forall|i: int| 0 <= i < rest.len() implies carried(#[trigger] rest[i]) by {
            assert(rest[i] == sent[i + 1]);
        }
        if inbox.len() > n {
            // The first frame has come whole.
            let left = inbox.skip(n + 1);
            assert(inbox =~= first + left) by {
                assert forall|i: int| 0 <= i < n + 1 implies inbox[i] == #[trigger] first[i] by {
                    assert((inbox + more)[i] == inbox[i]);
                    assert((first + all_frame_bytes(rest))[i] == first[i]);
                }
            }
            assert(left + more =~= all_frame_bytes(rest)) by {
                assert((inbox + more).skip(n + 1) =~= left + more);
                assert((first + all_frame_bytes(rest)).skip(n + 1) =~= all_frame_bytes(rest));
            }
            law_frame_round_trip(sent[0], left, false);
            let m = lemma_drained(left, more, rest);
            let later = drained(searchable(left, false));
            assert(drained(v) == (later.0, seq![encode_utf8(sent[0])] + later.1));
            assert(seq![encode_utf8(sent[0])] + later.1 =~= all_encoded(sent.take(m + 1))) by {
                assert forall|i: int| 0 <= i < m implies rest.take(m)[i] == #[trigger] sent.take(
                    m + 1,
                )[i + 1] by {}
            }
            assert(sent.skip(m + 1) =~= rest.skip(m));
            m + 1
        } else {
            // It has come in part, without its NUL.
            assert forall|i: int| 0 <= i < inbox.len() implies #[trigger] inbox[i] != 0 by {
                lemma_no_nul_bytes(sent[0]);
                assert((inbox + more)[i] == inbox[i]);
                assert((first + all_frame_bytes(rest))[i] == first[i]);
                assert(first[i] == encode_utf8(sent[0])[i]);
            }
            lemma_frame_len(inbox);
            assert(all_encoded(sent.take(0)) =~= Seq::empty());
            assert(sent.skip(0) =~= sent);
            0
        }
    }
}

proof fn lemma_delivered(v: DelimitedView, reads: Seq<Seq<u8>>, sent: Seq<Seq<char>>)
    requires
        !v.ended && !v.failed && !v.discarding && !v.readable,
        v.inbox + joined(reads) == all_frame_bytes(sent),
        forall|i: int| 0 <= i < reads.len() ==> (#[trigger] reads[i]).len() > 0,
        forall|i: int| 0 <= i < sent.len() ==> carried(#[trigger] sent[i]),
        reads.len() == 0 ==> sent.len() == 0,
    ensures
        delivered(v, reads).1 == all_encoded(sent),
        delivered(v, reads).0 == unread(),
    decreases reads.len(),
{
    if reads.len() == 0 {
        assert(v.inbox.len() == 0) by {
            assert((v.inbox + joined(reads)).len() == 0);
        }
        assert(v.inbox =~= Seq::empty());
        assert(all_encoded(sent) =~= Seq::empty());
    } else {
        let rest = reads.drop_first();
        let more = joined(rest);
        assert(v.inbox + reads[0] + more =~= v.inbox + joined(reads));
        let n = lemma_drained(v.inbox + reads[0], more, sent);
        let (after, frames) = drained(fed(v, reads[0]));
        assert(fed(v, reads[0]) == searchable(v.inbox + reads[0], false));
        let later = sent.skip(n);
        assert forall|i: int| 0 <= i < rest.len() implies (#[trigger] rest[i]).len() > 0 by {
            assert(rest[i] == reads[i + 1]);
        }
        assert forall|i: int| 0 <= i < later.len() implies carried(#[trigger] later[i]) by {
            assert(later[i] == sent[i + n]);
        }
        if rest.len() == 0 && later.len() > 0 {
            // All has been read, so that every frame was whole.
            assert(v.inbox + reads[0] + more =~= v.inbox + reads[0]);
            law_all_frames_are_received(sent, false);
            assert(frames.len() == sent.len());
        }
        lemma_delivered(after, rest, later);
        assert(all_encoded(sent.take(n)) + all_encoded(later) =~= all_encoded(sent));
    }
}

/// Any number of texts that were sent in turn are received in that order, however the
/// stream is cut into reads, and then comes the end.
pub proof fn law_frames_are_received_in_order(reads: Seq<Seq<u8>>, sent: Seq<Seq<char>>)
    requires
        joined(reads) == all_frame_bytes(sent),
        forall|i: int| 0 <= i < reads.len() ==> (#[trigger] reads[i]).len() > 0,
        forall|i: int| 0 <= i < sent.len() ==> carried(#[trigger] sent[i]),
    ensures
        delivered(unread(), reads).1 == all_encoded(sent),
        received(delivered(unread(), reads).0).1 == ReceivedView::ReadMore,
        received(fed(delivered(unread(), reads).0, Seq::empty())).1 == ReceivedView::End,
{
    assert(Seq::<u8>::empty() + joined(reads) =~= joined(reads));
    if reads.len() == 0 && sent.len() > 0 {
        assert(all_frame_bytes(sent).len() >= frame_bytes(sent[0]).len());
    }
    lemma_delivered(unread(), reads, sent);
}

/// What is received of a stream, byte by byte: the bytes before the first NUL where no more
/// than 8192 come before it, and then what follows the NUL stays; a frame is too long where
/// the first 8193 bytes have no NUL; otherwise more is read, or at the end all that is left
/// is the last frame, and nothing is left after it.
pub proof fn law_frames_end_at_nul(inbox: Seq<u8>, ended: bool, n: int)
    requires
        0 <= n <= inbox.len(),
        forall|i: int| 0 <= i < n ==> #[trigger] inbox[i] != 0,
        n < inbox.len() ==> inbox[n] == 0,
    ensures
        ({
            let (after, got) = received(searchable(inbox, ended));
            &&& n < inbox.len() && n <= 8192 ==> {
                &&& got == ReceivedView::Frame(inbox.take(n))
                &&& after == searchable(inbox.skip(n + 1), ended)
            }
            &&& n > 8192 ==> got is TooLong && after.failed && after.discarding && after.inbox
                == inbox
            &&& n == inbox.len() <= 8192 && !ended ==> got is ReadMore && after.inbox == inbox
            &&& n == inbox.len() <= 8192 && ended && n > 0 ==> {
                &&& got == ReceivedView::Frame(inbox)
                &&& after.inbox.len() == 0
            }
            &&& n == inbox.len() == 0 && ended ==> got is End
        }),
{
    lemma_frame_len(inbox);
    if frame_len(inbox) < n {
        assert(inbox[frame_len(inbox) as int] != 0);
    }
    if n < frame_len(inbox) {
        assert(inbox[n] != 0);
    }
}

/// The frame of a text is the bytes of the text and one NUL behind them.
pub proof fn law_frame_is_text_and_nul(text: Seq<char>)
    ensures
        frame_bytes(text).len() == encode_utf8(text).len() + 1,
        frame_bytes(text).take(encode_utf8(text).len() as int) == encode_utf8(text),
        frame_bytes(text)[encode_utf8(text).len() as int] == 0,
{
    assert(frame_bytes(text).take(encode_utf8(text).len() as int) =~= encode_utf8(text));
}

/// Where nothing was read since the last frame was looked for in vain, nothing changes: more
/// is to be read, or the end stays the end. A frame that was too long is followed by the
/// end, once.
pub proof fn law_nothing_new_without_a_read(v: DelimitedView)
    ensures
        !v.failed && !v.readable ==> received(v).0 == v && received(v).1 == (if v.ended {
            ReceivedView::End
        } else {
            ReceivedView::ReadMore
        }),
        v.failed ==> received(v).1 is End && !received(v).0.failed && received(v).0.inbox
            == v.inbox,
        v.ended ==> fed(v, Seq::empty()) == v,
        fed(v, Seq::empty()).ended,
{
    assert(v.inbox + Seq::<u8>::empty() =~= v.inbox);
}

/// A read keeps what came before it, and the stream is at its end exactly after an empty one.
pub proof fn law_read_is_appended(v: DelimitedView, bytes: Seq<u8>)
    ensures
        fed(v, bytes).inbox == v.inbox + bytes,
        fed(v, bytes).ended <==> bytes.len() == 0,
        bytes.len() > 0 ==> fed(v, bytes).readable,
        fed(v, bytes).failed == v.failed,
        fed(v, bytes).discarding == v.discarding,
{
}

/// The rest of a frame that was too long is left out for as long as no NUL comes, over as
/// many reads as it takes.
pub proof fn law_long_frame_goes_on(v: DelimitedView, more: Seq<u8>)
    requires
        v.discarding,
        !v.failed,
        more.len() > 0,
        forall|i: int| 0 <= i < v.inbox.len() ==> #[trigger] v.inbox[i] != 0,
        forall|i: int| 0 <= i < more.len() ==> #[trigger] more[i] != 0,
    ensures
        ({
            let (after, got) = received(fed(v, more));
            &&& got is ReadMore
            &&& after.inbox.len() == 0
            &&& after.discarding
            &&& !after.failed
        }),
{
    let all = v.inbox + more;
    lemma_frame_len(all);
    if frame_len(all) < all.len() {
        let i = frame_len(all) as int;
        if i < v.inbox.len() {
            assert(v.inbox[i] == all[i]);
        } else {
            assert(more[i - v.inbox.len()] == all[i]);
        }
    }
}

} // verus!
