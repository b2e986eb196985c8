//! Log output as lines: text comes in chunks, whole lines go out.

use crate::path::{lemma_split_nonempty, split, split_text, views};
use crate::text::to_chars;
use vstd::prelude::*;

verus! {

/// `s` without the line ends at its end.
pub open spec fn trim_line_end(s: Seq<char>) -> Seq<char>
    decreases s.len(),
{
    if s.len() > 0 && (s.last() == '\r' || s.last() == '\n') {
        trim_line_end(s.drop_last())
    } else {
        s
    }
}

/// The lines of `pieces` that are not empty once their line ends are trimmed.
pub open spec fn lines_of(pieces: Seq<Seq<char>>) -> Seq<Seq<char>>
    decreases pieces.len(),
{
    if pieces.len() == 0 {
        Seq::empty()
    } else {
        let front = lines_of(pieces.drop_last());
        let line = trim_line_end(pieces.last());
        if line.len() > 0 {
            front.push(line)
        } else {
            front
        }
    }
}

/// The complete lines of a text, in their order.
pub open spec fn complete_lines(text: Seq<char>) -> Seq<Seq<char>> {
    lines_of(split(text, '\n').drop_last())
}

/// What follows the last line end of a text.
pub open spec fn partial_line(text: Seq<char>) -> Seq<char> {
    split(text, '\n').last()
}

/// `s` without the line ends at its end.
fn trim_text<'a>(s: &'a str) -> (r: &'a str)
    ensures
        r@ == trim_line_end(s@),
{
    let chars = to_chars(s);
    let mut n: usize = chars.len();
    assert(s@.take(n as int) =~= s@);
    while n > 0 && (chars[n - 1] == '\r' || chars[n - 1] == '\n')
        invariant
            chars@ == s@,
            n <= chars.len(),
            trim_line_end(s@) == trim_line_end(s@.take(n as int)),
        decreases n,
    {
        assert(s@.take(n as int).drop_last() =~= s@.take(n - 1));
        n -= 1;
    }
    let r = s.substring_char(0, n);
    proof {
        assert(r@ =~= s@.take(n as int));
        if n > 0 {
            assert(r@.last() == chars@[n - 1]);
        }
    }
    r
}

/// Collects log output and gives out its lines.
#[derive(Debug)]
pub struct LineBuffer {
    pending: String,
}

impl LineBuffer {
    /// The text after the last complete line.
    pub closed spec fn pending_view(&self) -> Seq<char> {
        self.pending@
    }

    /// A buffer that has seen nothing.
    pub fn new() -> (r: Self)
        ensures
            r.pending_view() == Seq::<char>::empty(),
    {
        LineBuffer { pending: String::new() }
    }

    /// Take a chunk of output; the lines that it completes.
    pub fn push(&mut self, chunk: &str) -> (lines: Vec<String>)
        ensures
            crate::listing::texts(lines@) == complete_lines(old(self).pending_view() + chunk@),
            final(self).pending_view() == partial_line(old(self).pending_view() + chunk@),
    {
        let mut text = self.pending.clone();
        text.append(chunk);
        let ghost whole = self.pending@ + chunk@;
        assert(text@ =~= whole);
        let pieces = split_text(text.as_str(), '\n');
        let ghost parts = split(whole, '\n');
        proof {
            lemma_split_nonempty(whole, '\n');
            assert(views(pieces@).len() == pieces@.len());
        }
        let mut lines: Vec<String> = Vec::new();
        let mut i: usize = 0;
        assert(parts.take(0) =~= Seq::<Seq<char>>::empty());
        assert(crate::listing::texts(lines@) =~= Seq::<Seq<char>>::empty());
        while i < pieces.len() - 1
            invariant
                pieces@.len() > 0,
                i <= pieces.len() - 1,
                views(pieces@) == parts,
                views(pieces@).len() == pieces@.len(),
                crate::listing::texts(lines@) == lines_of(parts.take(i as int)),
            decreases pieces.len() - 1 - i,
        {
            let ghost before = lines@;
            let line = trim_text(pieces[i]);
            proof {
                assert(parts.take(i + 1).drop_last() =~= parts.take(i as int));
                assert(parts.take(i + 1).last() == pieces@[i as int]@);
            }
            if !line.is_empty() {
                lines.push(line.to_string());
                assert(crate::listing::texts(lines@) =~= crate::listing::texts(before).push(line@));
            }
            i += 1;
        }
        assert(parts.take(parts.len() - 1) =~= parts.drop_last());
        let rest = pieces[pieces.len() - 1];
        assert(parts.last() == rest@);
        self.pending = rest.to_string();
        lines
    }

    /// The end of the output: what is left, unless it is empty.
    pub fn finish(self) -> (line: Option<String>)
        ensures
            match line {
                Some(s) => s@ == trim_line_end(self.pending_view()) && s@.len() > 0,
                None => trim_line_end(self.pending_view()).len() == 0,
            },
    {
        let line = trim_text(self.pending.as_str());
        if line.is_empty() {
            None
        } else {
            Some(line.to_string())
        }
    }
}

/// Splitting a text and then more of it.
proof fn lemma_split_append(a: Seq<char>, b: Seq<char>, sep: char)
    ensures
        split(a + b, sep) == split(a, sep).drop_last() + split(split(a, sep).last() + b, sep),
    decreases b.len(),
{
    lemma_split_nonempty(a, sep);
    let parts = split(a, sep);
    let tail = parts.last();
    if b.len() == 0 {
        assert(a + b =~= a);
        assert(tail + b =~= tail);
        crate::path::lemma_split_pieces(a, sep);
        assert(!parts[parts.len() - 1].contains(sep));
        crate::path::lemma_split_single(tail, sep);
        assert(parts =~= parts.drop_last() + seq![tail]);
    } else {
        let front = b.drop_last();
        lemma_split_append(a, front, sep);
        lemma_split_nonempty(tail + front, sep);
        assert((a + b).drop_last() =~= a + front);
        assert((tail + b).drop_last() =~= tail + front);
        assert((a + b).last() == b.last());
        assert((tail + b).last() == b.last());
        let x = split(a + front, sep);
        let y = split(tail + front, sep);
        assert(x.last() == y.last());
        assert(split(a + b, sep) =~= parts.drop_last() + split(tail + b, sep));
    }
}

/// Lines of one list of pieces and then another.
proof fn lemma_lines_concat(a: Seq<Seq<char>>, b: Seq<Seq<char>>)
    ensures
        lines_of(a + b) == lines_of(a) + lines_of(b),
    decreases b.len(),
{
    if b.len() == 0 {
        assert(a + b =~= a);
        assert(lines_of(a) + lines_of(b) =~= lines_of(a));
    } else {
        lemma_lines_concat(a, b.drop_last());
        assert((a + b).drop_last() =~= a + b.drop_last());
        assert((a + b).last() == b.last());
        assert(lines_of(a + b) =~= lines_of(a) + lines_of(b));
    }
}

/// How output is cut into chunks does not matter: two chunks give the lines, and leave the
/// rest, that both at once would.
pub proof fn law_chunks_do_not_matter(text: Seq<char>, chunk: Seq<char>)
    ensures
        complete_lines(text + chunk) == complete_lines(text) + complete_lines(
            partial_line(text) + chunk,
        ),
        partial_line(text + chunk) == partial_line(partial_line(text) + chunk),
{
    lemma_split_append(text, chunk, '\n');
    let tail = partial_line(text) + chunk;
    lemma_split_nonempty(tail, '\n');
    let a = split(text, '\n').drop_last();
    let b = split(tail, '\n');
    assert((a + b).drop_last() =~= a + b.drop_last());
    lemma_lines_concat(a, b.drop_last());
}

/// What to do after an attempt to hand a line over.
#[derive(Debug, Clone, Copy, PartialEq, Eq, Structural)]
pub enum EmitStep {
    /// The line was taken.
    Done,
    /// Try again after so many milliseconds.
    WaitMillis(u64),
    /// Give the line up, after so many milliseconds.
    DropAfterMillis(u64),
}

/// What follows the attempt number `attempt`, counted from one: a millisecond after a failed
/// attempt the line is tried again, fifty times in all, and then given up, so that logging
/// never blocks for long on a consumer that is busy or going away.
pub fn emit_step(attempt: u32, attached: bool) -> (s: EmitStep)
    ensures
        s == if attached {
            EmitStep::Done
        } else if attempt < 50 {
            EmitStep::WaitMillis(1)
        } else {
            EmitStep::DropAfterMillis(1)
        },
{
    if attached {
        EmitStep::Done
    } else if attempt < 50 {
        EmitStep::WaitMillis(1)
    } else {
        EmitStep::DropAfterMillis(1)
    }
}

/// The log level to install: the one asked for, else `info` if the environment configures
/// logging. `None` keeps the gateway silent.
pub fn effective_level(level: Option<String>, env_configured: bool) -> (r: Option<String>)
    ensures
        match level {
            Some(l) => r == Some(l),
            None => if env_configured {
                r matches Some(l) && l@ == "info"@
            } else {
                r is None
            },
        },
{
    match level {
        Some(l) => Some(l),
        None => if env_configured {
            Some("info".to_string())
        } else {
            None
        },
    }
}

/// What trimming leaves of a line: everything before the line ends at its end.
proof fn lemma_trim_body(body: Seq<char>, ends: Seq<char>)
    requires
        body.len() > 0 ==> body.last() != '\r' && body.last() != '\n',
        forall|i: int| 0 <= i < ends.len() ==> #[trigger] ends[i] == '\r' || ends[i] == '\n',
    ensures
        trim_line_end(body + ends) == body,
    decreases ends.len(),
{
    if ends.len() == 0 {
        assert(body + ends =~= body);
    } else {
        assert((body + ends).last() == ends[ends.len() - 1]);
        assert((body + ends).drop_last() =~= body + ends.drop_last());
        assert forall|i: int| 0 <= i < ends.drop_last().len() implies
            #[trigger] ends.drop_last()[i] == '\r' || ends.drop_last()[i] == '\n' by {
            assert(ends.drop_last()[i] == ends[i]);
        }
        lemma_trim_body(body, ends.drop_last());
    }
}

/// Output without a line end gives no line out, and is kept, all of it.
pub proof fn law_output_waits_for_its_line_end(
    buffer: &mut LineBuffer,
    chunk: &str,
    lines: Vec<String>,
)
    requires
        call_ensures(LineBuffer::push, (buffer, chunk), lines),
        !(old(buffer).pending_view() + chunk@).contains('\n'),
    ensures
        lines@.len() == 0,
        final(buffer).pending_view() == old(buffer).pending_view() + chunk@,
{
    let text = old(buffer).pending_view() + chunk@;
    crate::path::lemma_split_single(text, '\n');
    assert(split(text, '\n').drop_last() =~= Seq::<Seq<char>>::empty());
    assert(crate::listing::texts(lines@).len() == lines@.len());
}

/// A line is given out once its line end has come, first of all lines, without its line end or
/// the carriage returns before it, and not at all if nothing else is in it. What follows it is
/// treated as output that came to an empty buffer.
pub proof fn law_lines_are_given_out(
    buffer: &mut LineBuffer,
    chunk: &str,
    lines: Vec<String>,
    body: Seq<char>,
    ends: Seq<char>,
    empty: &mut LineBuffer,
    rest: &str,
    more: Vec<String>,
)
    requires
        call_ensures(LineBuffer::push, (buffer, chunk), lines),
        old(buffer).pending_view() + chunk@ == (body + ends).push('\n') + rest@,
        !body.contains('\n'),
        body.len() > 0 ==> body.last() != '\r',
        forall|i: int| 0 <= i < ends.len() ==> #[trigger] ends[i] == '\r',
        old(empty).pending_view().len() == 0,
        call_ensures(LineBuffer::push, (empty, rest), more),
    ensures
        body.len() > 0 ==> {
            &&& lines@.len() == more@.len() + 1
            &&& lines@[0]@ == body
            &&& forall|i: int| 0 <= i < more@.len() ==> lines@[i + 1]@ == (#[trigger] more@[i])@
        },
        body.len() == 0 ==> {
            &&& lines@.len() == more@.len()
            &&& forall|i: int| 0 <= i < more@.len() ==> lines@[i]@ == (#[trigger] more@[i])@
        },
        final(buffer).pending_view() == final(empty).pending_view(),
{
    let line = body + ends;
    let text = old(buffer).pending_view() + chunk@;
    assert(old(empty).pending_view() + rest@ =~= rest@);
    assert(!line.contains('\n')) by {
        if line.contains('\n') {
            let i = choose|i: int| 0 <= i < line.len() && line[i] == '\n';
            if i < body.len() {
                assert(body[i] == '\n');
            } else {
                assert(ends[i - body.len()] == '\r');
            }
        }
    }
    crate::path::lemma_split_concat(line, rest@, '\n');
    crate::path::lemma_split_single(line, '\n');
    lemma_split_nonempty(rest@, '\n');
    if body.len() > 0 {
        assert(body.contains(body[body.len() - 1]));
    }
    lemma_trim_body(body, ends);
    let a = seq![line];
    let b = split(rest@, '\n');
    assert((a + b).drop_last() =~= a + b.drop_last());
    lemma_lines_concat(a, b.drop_last());
    assert(a.drop_last() =~= Seq::<Seq<char>>::empty());
    assert(lines_of(a.drop_last()) == Seq::<Seq<char>>::empty());
    let first = lines_of(a);
    assert(first =~= if body.len() > 0 {
        seq![body]
    } else {
        Seq::<Seq<char>>::empty()
    });
    let out = crate::listing::texts(lines@);
    let tail = crate::listing::texts(more@);
    assert(out == first + tail);
    assert(out.len() == lines@.len() && tail.len() == more@.len());
    if body.len() > 0 {
        assert(out[0] == body);
        assert forall|i: int| 0 <= i < more@.len() implies lines@[i + 1]@ == (
        #[trigger] more@[i])@ by {
            assert(out[i + 1] == tail[i]);
        }
    } else {
        assert forall|i: int| 0 <= i < more@.len() implies lines@[i]@ == (#[trigger] more@[i])@ by {
            assert(out[i] == tail[i]);
        }
    }
}

/// At the end of the output what was kept is given out, without line ends, unless nothing else is
/// in it. A new buffer has kept nothing.
pub proof fn law_rest_is_given_out(
    buffer: LineBuffer,
    line: Option<String>,
    body: Seq<char>,
    ends: Seq<char>,
    fresh: LineBuffer,
)
    requires
        call_ensures(LineBuffer::finish, (buffer,), line),
        buffer.pending_view() == body + ends,
        body.len() > 0 ==> body.last() != '\r' && body.last() != '\n',
        forall|i: int| 0 <= i < ends.len() ==> #[trigger] ends[i] == '\r' || ends[i] == '\n',
        call_ensures(LineBuffer::new, (), fresh),
    ensures
        body.len() > 0 ==> (line matches Some(s) && s@ == body),
        body.len() == 0 ==> line is None,
        fresh.pending_view().len() == 0,
{
    lemma_trim_body(body, ends);
}

/// A line that is taken is done with. One that is not is tried again a millisecond later, and
/// given up after fifty attempts and a last millisecond: so fifty milliseconds at most are spent
/// on it.
pub proof fn law_lines_are_tried(attempt: u32, attached: bool, s: EmitStep)
    requires
        call_ensures(emit_step, (attempt, attached), s),
    ensures
        s == EmitStep::Done <==> attached,
        s is WaitMillis <==> !attached && attempt < 50,
        s is DropAfterMillis <==> !attached && attempt >= 50,
        s matches EmitStep::WaitMillis(ms) ==> ms == 1,
        s matches EmitStep::DropAfterMillis(ms) ==> ms == 1,
{
}

/// The level that is asked for wins; the environment alone means `info`; without either the
/// gateway is silent.
pub proof fn law_log_level(level: Option<String>, env_configured: bool, r: Option<String>)
    requires
        call_ensures(effective_level, (level, env_configured), r),
    ensures
        level matches Some(l) ==> (r matches Some(s) && s@ == l@),
        level is None && env_configured ==> (r matches Some(s) && s@ == "info"@),
        level is None && !env_configured ==> r is None,
{
}

} // verus!
