//! The body of a `GET` response: exactly the declared number of bytes, or an explicit error.

use crate::number::{numeral, numeral_text};
use vstd::prelude::*;

verus! {

/// Why the body of a response failed.
#[derive(Debug, PartialEq, Eq)]
pub enum GetBodyError {
    /// The upstream HDFS reader failed mid-stream, with this text.
    Upstream(String),
    /// The upstream stream ended before the declared content length was reached.
    ShortRead { expected: usize, got: usize },
}

impl GetBodyError {
    /// The description of the error.
    pub open spec fn text(&self) -> Seq<char> {
        match self {
            GetBodyError::Upstream(e) => "HDFS read failed: "@ + e@,
            GetBodyError::ShortRead { expected, got } => "HDFS stream ended after "@ + numeral(
                *got as nat,
                10,
            ) + " of "@ + numeral(*expected as nat, 10) + " declared bytes"@,
        }
    }

    /// The description of the error.
    pub fn message(&self) -> (s: String)
        ensures
            s@ == self.text(),
    {
        match self {
            GetBodyError::Upstream(e) => {
                let mut s = "HDFS read failed: ".to_string();
                s.append(e.as_str());
                s
            },
            GetBodyError::ShortRead { expected, got } => {
                let mut s = "HDFS stream ended after ".to_string();
                s.append(numeral_text(*got as u128, 10).as_str());
                s.append(" of ");
                s.append(numeral_text(*expected as u128, 10).as_str());
                s.append(" declared bytes");
                s
            },
        }
    }
}

/// What the upstream reader came to.
#[derive(Debug, PartialEq, Eq)]
pub enum Upstream {
    /// A chunk of this many bytes.
    Chunk(usize),
    /// A failure, with its text.
    Failed(String),
    /// The end of the file.
    Ended,
}

/// What to do with it.
#[derive(Debug, PartialEq, Eq)]
pub enum BodyStep {
    /// Send this many bytes from the start of the chunk.
    Send(usize),
    /// Fail the body.
    Fail(GetBodyError),
}

/// The progress of a body towards its declared length.
///
/// A reader delivers large chunks to the end of the file, so the last chunk of a ranged read
/// routinely extends past the window: the excess is cut off. A reader that ends early fails
/// the body instead of passing for a complete response.
#[derive(Debug, PartialEq, Eq)]
pub struct BodyLimit {
    limit: usize,
    remaining: usize,
}

impl BodyLimit {
    /// The declared length.
    pub closed spec fn declared(&self) -> nat {
        self.limit as nat
    }

    /// The bytes still owed.
    pub closed spec fn owed(&self) -> nat {
        self.remaining as nat
    }

    /// No more is owed than was declared.
    pub open spec fn wf(&self) -> bool {
        self.owed() <= self.declared()
    }

    /// A body of which nothing was sent yet.
    pub fn new(content_length: usize) -> (r: Self)
        ensures
            r.wf(),
            r.declared() == content_length,
            r.owed() == content_length,
    {
        BodyLimit { limit: content_length, remaining: content_length }
    }

    /// Whether the body is over: the upstream reader is not asked again.
    pub fn is_done(&self) -> (r: bool)
        ensures
            r == (self.owed() == 0),
    {
        self.remaining == 0
    }

    /// What comes of `event` while bytes are owed.
    pub open spec fn takes(self, event: Upstream, post: BodyLimit, step: BodyStep) -> bool {
        &&& post.declared() == self.declared()
        &&& match event {
            Upstream::Chunk(n) => {
                let sent = if n as nat <= self.owed() {
                    n as nat
                } else {
                    self.owed()
                };
                step matches BodyStep::Send(k) && k == sent && post.owed() == self.owed() - sent
            },
            Upstream::Failed(text) => post.owed() == self.owed() && step == BodyStep::Fail(
                GetBodyError::Upstream(text),
            ),
            Upstream::Ended => post.owed() == 0 && (step matches BodyStep::Fail(
                GetBodyError::ShortRead { expected, got },
            ) && expected == self.declared() && got == self.declared() - self.owed()),
        }
    }

    /// Take what the upstream reader came to.
    pub fn step(&mut self, event: Upstream) -> (step: BodyStep)
        requires
            old(self).wf(),
            old(self).owed() > 0,
        ensures
            final(self).wf(),
            old(self).takes(event, *final(self), step),
    {
        match event {
            Upstream::Chunk(n) => {
                let sent: usize = if n > self.remaining {
                    self.remaining
                } else {
                    n
                };
                self.remaining = self.remaining - sent;
                BodyStep::Send(sent)
            },
            Upstream::Failed(text) => BodyStep::Fail(GetBodyError::Upstream(text)),
            Upstream::Ended => {
                let got: usize = self.limit - self.remaining;
                self.remaining = 0;
                BodyStep::Fail(GetBodyError::ShortRead { expected: self.limit, got })
            },
        }
    }
}

/// The bytes of chunks, one after the other.
pub open spec fn flatten(chunks: Seq<Seq<u8>>) -> Seq<u8>
    decreases chunks.len(),
{
    if chunks.len() == 0 {
        Seq::empty()
    } else {
        flatten(chunks.drop_last()) + chunks.last()
    }
}

/// The state of a body after each of `chunks`, starting with `states[0]`, and the bytes sent
/// of each chunk. A chunk that comes when nothing is owed is not asked for.
pub open spec fn serves(
    states: Seq<BodyLimit>,
    chunks: Seq<Seq<u8>>,
    sent: Seq<Seq<u8>>,
) -> bool {
    &&& states.len() == chunks.len() + 1
    &&& sent.len() == chunks.len()
    &&& forall|i: int| 0 <= i < chunks.len() ==> #[trigger] serves_chunk(states, chunks, sent, i)
}

/// Chunk `i` of a body.
pub open spec fn serves_chunk(
    states: Seq<BodyLimit>,
    chunks: Seq<Seq<u8>>,
    sent: Seq<Seq<u8>>,
    i: int,
) -> bool {
    exists|n: usize, k: usize|
        {
            &&& n == chunks[i].len()
            &&& k <= n
            &&& states[i].owed() > 0
            &&& #[trigger] states[i].takes(Upstream::Chunk(n), states[i + 1], BodyStep::Send(k))
            &&& sent[i] == chunks[i].take(k as int)
        }
}

/// The body is what the upstream reader delivers, cut off at the declared length: after any
/// number of chunks, the bytes sent are the first of the bytes read, all of them or as many
/// as were declared, and what is owed is the rest of the declared length.
pub proof fn law_body_is_prefix(
    content_length: nat,
    states: Seq<BodyLimit>,
    chunks: Seq<Seq<u8>>,
    sent: Seq<Seq<u8>>,
)
    requires
        serves(states, chunks, sent),
        states[0].declared() == content_length,
        states[0].owed() == content_length,
    ensures
        ({
            let read = flatten(chunks);
            let n = if read.len() <= content_length {
                read.len()
            } else {
                content_length
            };
            &&& flatten(sent) == read.take(n as int)
            &&& states.last().owed() == content_length - n
            &&& states.last().declared() == content_length
        }),
    decreases chunks.len(),
{
    let read = flatten(chunks);
    if chunks.len() == 0 {
        assert(flatten(sent) =~= read.take(0));
    } else {
        let m = chunks.len() - 1;
        let s0 = states.drop_last();
        let c0 = chunks.drop_last();
        let t0 = sent.drop_last();
        assert forall|i: int| 0 <= i < c0.len() implies #[trigger] serves_chunk(s0, c0, t0, i) by {
            assert(serves_chunk(states, chunks, sent, i));
            let (n, k) = choose|n: usize, k: usize|
                {
                    &&& n == chunks[i].len()
                    &&& k <= n
                    &&& states[i].owed() > 0
                    &&& #[trigger] states[i].takes(
                        Upstream::Chunk(n),
                        states[i + 1],
                        BodyStep::Send(k),
                    )
                    &&& sent[i] == chunks[i].take(k as int)
                };
            assert(s0[i] == states[i] && s0[i + 1] == states[i + 1]);
            assert(s0[i].takes(Upstream::Chunk(n), s0[i + 1], BodyStep::Send(k)));
        }
        law_body_is_prefix(content_length, s0, c0, t0);
        assert(serves_chunk(states, chunks, sent, m));
        let (n, k) = choose|n: usize, k: usize|
            {
                &&& n == chunks[m].len()
                &&& k <= n
                &&& states[m].owed() > 0
                &&& #[trigger] states[m].takes(Upstream::Chunk(n), states[m + 1], BodyStep::Send(k))
                &&& sent[m] == chunks[m].take(k as int)
            };
        let before = flatten(c0);
        assert(s0.last() == states[m]);
        assert(flatten(t0) =~= before);
        assert(flatten(sent) =~= before + chunks[m].take(k as int));
        assert(read =~= before + chunks[m]);
        assert(flatten(sent) =~= read.take((before.len() + k) as int));
    }
}

/// No short response passes for a complete one: a body that is over without an error has
/// sent exactly its declared length.
pub proof fn law_no_silent_truncation(
    content_length: nat,
    states: Seq<BodyLimit>,
    chunks: Seq<Seq<u8>>,
    sent: Seq<Seq<u8>>,
)
    requires
        serves(states, chunks, sent),
        states[0].declared() == content_length,
        states[0].owed() == content_length,
        states.last().owed() == 0,
    ensures
        flatten(sent).len() == content_length,
{
    law_body_is_prefix(content_length, states, chunks, sent);
}

/// A chunk is sent from its start, all of it or as much as is still owed, and what was sent is
/// owed no more.
pub proof fn law_chunks_are_sent(body: &mut BodyLimit, n: usize, step: BodyStep)
    requires
        call_ensures(BodyLimit::step, (body, Upstream::Chunk(n)), step),
    ensures
        step matches BodyStep::Send(k) && k <= n && k <= old(body).owed() && (k == n || k
            == old(body).owed()) && final(body).owed() == old(body).owed() - k,
        final(body).declared() == old(body).declared(),
{
}

/// A failure of the upstream fails the body with its text.
pub proof fn law_failures_are_passed_on(body: &mut BodyLimit, text: String, step: BodyStep)
    requires
        call_ensures(BodyLimit::step, (body, Upstream::Failed(text)), step),
    ensures
        step == BodyStep::Fail(GetBodyError::Upstream(text)),
        final(body).owed() == old(body).owed(),
        final(body).declared() == old(body).declared(),
{
}

/// An upstream that ends early fails the body, with what was sent and what was declared, and
/// once.
pub proof fn law_short_reads_fail(body: &mut BodyLimit, step: BodyStep)
    requires
        old(body).owed() <= old(body).declared(),
        call_ensures(BodyLimit::step, (body, Upstream::Ended), step),
    ensures
        step matches BodyStep::Fail(GetBodyError::ShortRead { expected, got })
            && expected == old(body).declared() && got + old(body).owed() == expected,
        final(body).owed() == 0,
{
}

/// A body owes what was declared, and is over when it owes nothing.
pub proof fn law_body_owes_what_was_declared(
    content_length: usize,
    fresh: BodyLimit,
    body: &BodyLimit,
    done: bool,
)
    requires
        call_ensures(BodyLimit::new, (content_length,), fresh),
        call_ensures(BodyLimit::is_done, (body,), done),
    ensures
        fresh.owed() == content_length,
        fresh.declared() == content_length,
        done <==> body.owed() == 0,
{
}

/// A description says what went wrong and repeats the particulars, in decimal.
pub proof fn law_body_error_descriptions(e: &GetBodyError, s: String, a: String, b: String)
    requires
        call_ensures(GetBodyError::message, (e,), s),
        *e matches GetBodyError::ShortRead { expected, got } ==> call_ensures(
            numeral_text,
            (got as u128, 10u8),
            a,
        ) && call_ensures(numeral_text, (expected as u128, 10u8), b),
    ensures
        match *e {
            GetBodyError::Upstream(text) => s@ == "HDFS read failed: "@ + text@,
            GetBodyError::ShortRead { .. } => s@ == "HDFS stream ended after "@ + a@ + " of "@ + b@
                + " declared bytes"@,
        },
{
}

} // verus!
