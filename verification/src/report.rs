//! Walking a chain of causes, and writing it out as one line.

use crate::error::lemma_chain_unfold;
use crate::error::ChainError;
use crate::sink::lemma_prefix_widen;
use crate::sink::Sink;
use crate::sink::SinkError;
use crate::sink::StringSink;
use vstd::prelude::*;

verus! {

/// What stands between two texts of a report: a colon and a space.
pub open spec fn delimiter() -> Seq<char> {
    seq![':', ' ']
}

/// The parts in their order, with `sep` between each two of them.
pub open spec fn join(parts: Seq<Seq<char>>, sep: Seq<char>) -> Seq<char>
    decreases parts.len(),
{
    if parts.len() == 0 {
        Seq::empty()
    } else if parts.len() == 1 {
        parts[0]
    } else {
        parts[0] + sep + join(parts.skip(1), sep)
    }
}

/// The own text of each error, in the errors' order.
pub open spec fn texts(errors: Seq<ChainError>) -> Seq<Seq<char>> {
    errors.map_values(|e: ChainError| e.text())
}

/// The one-line report of `root`: its text and the text of each error down
/// its chain of causes, joined by the delimiter.
pub open spec fn line(root: ChainError) -> Seq<char> {
    join(texts(root.chain()), delimiter())
}

/// What a report appends for `errors`: for each of them in turn the delimiter
/// and the error's text.
pub open spec fn trailing(errors: Seq<ChainError>) -> Seq<char>
    decreases errors.len(),
{
    if errors.len() == 0 {
        Seq::empty()
    } else {
        delimiter() + errors[0].text() + trailing(errors.skip(1))
    }
}

/// The chain that starts at `seed`: empty where there is no seed.
pub open spec fn chain_from(seed: Option<&ChainError>) -> Seq<ChainError> {
    match seed {
        Some(e) => e.chain(),
        None => Seq::empty(),
    }
}

/// What a pass has yet to produce after `steps` more calls of `next`, where
/// it had `remaining` to produce before them.
pub open spec fn after_steps(remaining: Seq<ChainError>, steps: nat) -> Seq<ChainError>
    decreases steps,
{
    if steps == 0 {
        remaining
    } else if remaining.len() == 0 {
        after_steps(remaining, (steps - 1) as nat)
    } else {
        after_steps(remaining.skip(1), (steps - 1) as nat)
    }
}

/// A single pass over a chain of errors: the seed first, then its cause, then
/// that error's cause, until an error has none. It cannot be rewound.
pub struct Sources<'a> {
    current: Option<&'a ChainError>,
}

impl<'a> Sources<'a> {
    /// The errors that the pass has yet to produce, next one first.
    pub closed spec fn remaining(&self) -> Seq<ChainError> {
        chain_from(self.current)
    }

    /// A pass that produces `current` first, if there is one.
    pub fn new(current: Option<&'a ChainError>) -> (s: Sources<'a>)
        ensures
            s.remaining() == chain_from(current),
    {
        Sources { current }
    }

    /// Produces the next error and moves on to its cause. Once the chain has
    /// ended, every further call produces `None`.
    pub fn next(&mut self) -> (r: Option<&'a ChainError>)
        ensures
            old(self).remaining().len() == 0 ==> r is None && final(self).remaining().len() == 0,
            old(self).remaining().len() > 0 ==> r is Some && *r.unwrap() == old(self).remaining()[0]
                && final(self).remaining() == old(self).remaining().skip(1),
            final(self).remaining() == after_steps(old(self).remaining(), 1),
    {
        proof {
            reveal_with_fuel(after_steps, 2);
        }
        let current = self.current;
        match current {
            Some(e) => {
                proof {
                    lemma_chain_unfold(*e);
                }
                self.current = e.source();
            },
            None => {},
        }
        current
    }

    /// Runs the pass to its end and returns what it produced, in order.
    pub fn collect(self) -> (v: Vec<&'a ChainError>)
        ensures
            v@.len() == self.remaining().len(),
            forall|i: int| 0 <= i < v@.len() ==> *(#[trigger] v@[i]) == self.remaining()[i],
    {
        let ghost all = self.remaining();
        let mut pass = self;
        let mut v: Vec<&'a ChainError> = Vec::new();
        loop
            invariant
                all == self.remaining(),
                v@.len() + pass.remaining().len() == all.len(),
                pass.remaining() == all.skip(v@.len() as int),
                forall|i: int| 0 <= i < v@.len() ==> *(#[trigger] v@[i]) == all[i],
            decreases pass.remaining().len(),
        {
            match pass.next() {
                Some(e) => {
                    v.push(e);
                },
                None => {
                    return v;
                },
            }
        }
    }
}

/// A root error, borrowed, to be written out with its chain of causes as one
/// line of text.
pub struct Report<'a> {
    error: &'a ChainError,
}

impl<'a> Report<'a> {
    /// The error that the report is about.
    pub closed spec fn root(&self) -> ChainError {
        *self.error
    }

    /// The report's text.
    pub open spec fn rendered(&self) -> Seq<char> {
        line(self.root())
    }

    /// A report about `e`. The chain is read when the report is written, not
    /// here.
    pub fn new(e: &'a ChainError) -> (report: Report<'a>)
        ensures
            report.root() == *e,
    {
        Report { error: e }
    }

    /// A pass over the root's causes, immediate cause first. The root itself
    /// is not part of it.
    pub fn sources(&self) -> (s: Sources<'a>)
        ensures
            s.remaining() == self.root().causes(),
    {
        Sources::new(self.error.source())
    }

    /// Writes the report to `f`: the root's text, then for each cause the
    /// delimiter and the cause's text. The first failure of the sink ends the
    /// writing and is returned; what the sink took before stays written.
    pub fn fmt<S: Sink>(&self, f: &mut S) -> (r: Result<(), SinkError>)
        ensures
            r is Ok <==> old(f).accepts(self.rendered()),
            r is Ok ==> final(f).written() == old(f).written() + self.rendered(),
            r is Err ==> old(f).written().is_prefix_of(final(f).written()),
            r is Err ==> final(f).written().is_prefix_of(old(f).written() + self.rendered()),
            r is Ok ==> forall|t: Seq<char>| #[trigger]
                final(f).accepts(t) == old(f).accepts(self.rendered() + t),
    {
        let ghost start = f.written();
        let ghost whole = self.rendered();
        let ghost mut done: Seq<char> = Seq::empty();
        proof {
            lemma_line_unfold(self.root());
            assert(start + done =~= start);
        }
        match f.write_str(self.error.message()) {
            Err(e) => {
                proof {
                    lemma_prefix_widen(
                        f.written(),
                        start,
                        done,
                        self.root().text(),
                        trailing(self.root().causes()),
                    );
                    assert(done + self.root().text() + trailing(self.root().causes()) =~= whole);
                    if old(f).accepts(whole) {
                        old(f).accepts_front(self.root().text(), trailing(self.root().causes()));
                    }
                }
                return Err(e);
            },
            Ok(()) => {},
        }
        proof {
            done = self.root().text();
            assert(start + done =~= f.written());
        }
        let mut sources = self.sources();
        loop
            invariant
                f.written() == start + done,
                done + trailing(sources.remaining()) == whole,
                old(f).accepts(done),
                forall|t: Seq<char>| #[trigger] f.accepts(t) == old(f).accepts(done + t),
                start == old(f).written(),
                whole == self.rendered(),
            decreases sources.remaining().len(),
        {
            let ghost left = sources.remaining();
            match sources.next() {
                None => {
                    proof {
                        assert(done + trailing(left) =~= done);
                    }
                    return Ok(());
                },
                Some(e) => {
                    let ghost rest = trailing(left.skip(1));
                    proof {
                        reveal_strlit(": ");
                        assert(": "@ =~= delimiter());
                        assert(trailing(left) == delimiter() + e.text() + rest);
                    }
                    match f.write_str(": ") {
                        Err(e1) => {
                            proof {
                                lemma_prefix_widen(
                                    f.written(),
                                    start,
                                    done,
                                    delimiter(),
                                    e.text() + rest,
                                );
                                assert(done + delimiter() + (e.text() + rest) =~= whole);
                                if old(f).accepts(whole) {
                                    old(f).accepts_front(done + delimiter(), e.text() + rest);
                                }
                            }
                            return Err(e1);
                        },
                        Ok(()) => {},
                    }
                    proof {
                        assert(done + delimiter() + e.text() + rest =~= whole);
                        lemma_accepts_behind(*f, *old(f), done, delimiter());
                        done = done + delimiter();
                        assert(start + done =~= f.written());
                    }
                    match f.write_str(e.message()) {
                        Err(e2) => {
                            proof {
                                lemma_prefix_widen(f.written(), start, done, e.text(), rest);
                                if old(f).accepts(whole) {
                                    old(f).accepts_front(done + e.text(), rest);
                                }
                            }
                            return Err(e2);
                        },
                        Ok(()) => {},
                    }
                    proof {
                        lemma_accepts_behind(*f, *old(f), done, e.text());
                        done = done + e.text();
                        assert(start + done =~= f.written());
                    }
                },
            }
        }
    }

    /// The report's text as an owned string.
    pub fn to_string(&self) -> (s: String)
        ensures
            s@ == self.rendered(),
    {
        let mut sink = StringSink::new();
        let r = self.fmt(&mut sink);
        assert(sink.written() =~= self.rendered());
        sink.into_string()
    }
}

/// An error without a cause is reported by its text alone, with no delimiter,
/// and a pass over its causes produces nothing.
pub proof fn law_single_error(root: ChainError)
    requires
        root.cause is None,
    ensures
        line(root) == root.text(),
        root.causes().len() == 0,
        root.chain() == seq![root],
{
    lemma_line_unfold(root);
    assert(root.text() + trailing(root.causes()) =~= root.text());
}

/// An error with a cause is reported by its text, the delimiter and the
/// report of its cause; a pass over its causes produces the cause and then
/// what a pass over the cause's own causes produces, one error more.
pub proof fn law_caused_error(root: ChainError, cause: ChainError)
    requires
        root.source_spec() == Some(cause),
    ensures
        line(root) == root.text() + delimiter() + line(cause),
        root.causes() == seq![cause] + cause.causes(),
        root.causes().len() == cause.causes().len() + 1,
{
    lemma_line_unfold(root);
    lemma_line_unfold(cause);
    lemma_chain_unfold(cause);
    assert(root.causes() == cause.chain());
    assert(cause.chain() =~= seq![cause] + cause.causes());
    assert(trailing(cause.chain()) == delimiter() + cause.text() + trailing(cause.causes()));
    assert(root.text() + delimiter() + (cause.text() + trailing(cause.causes())) =~= root.text()
        + (delimiter() + cause.text() + trailing(cause.causes())));
}

/// The texts stand in a report in chain order: joining the texts of the first
/// `i + 1` errors gives the joined texts of the first `i`, then the delimiter,
/// then the text of the error at place `i`. The first text has no delimiter
/// before it.
pub proof fn law_texts_in_chain_order(errors: Seq<ChainError>, i: int)
    requires
        0 <= i < errors.len(),
    ensures
        join(texts(errors.take(i + 1)), delimiter()) == if i == 0 {
            errors[0].text()
        } else {
            join(texts(errors.take(i)), delimiter()) + delimiter() + errors[i].text()
        },
    decreases i,
{
    let sep = delimiter();
    let upto = texts(errors.take(i + 1));
    if i == 0 {
        assert(upto.len() == 1);
        assert(upto[0] == errors[0].text());
    } else {
        let rest = errors.skip(1);
        law_texts_in_chain_order(rest, i - 1);
        assert(rest.take(i) =~= errors.take(i + 1).skip(1));
        assert(texts(rest.take(i)) =~= upto.skip(1));
        assert(rest[i - 1] == errors[i]);
        assert(upto[0] == errors[0].text());
        let before = texts(errors.take(i));
        assert(before[0] == errors[0].text());
        if i == 1 {
            assert(before.len() == 1);
            assert(rest[0] == errors[1]);
        } else {
            assert(rest.take(i - 1) =~= errors.take(i).skip(1));
            assert(texts(rest.take(i - 1)) =~= before.skip(1));
            assert(join(before, sep) == errors[0].text() + sep + join(before.skip(1), sep));
            assert(errors[0].text() + sep + (join(before.skip(1), sep) + sep + errors[i].text())
                =~= errors[0].text() + sep + join(before.skip(1), sep) + sep + errors[i].text());
        }
    }
}

/// Two reports about the same error have the same text: writing a report
/// changes nothing that a later writing reads.
pub proof fn law_same_root_same_text(first: Report, second: Report)
    requires
        first.root() == second.root(),
    ensures
        first.rendered() == second.rendered(),
{
}

/// A pass that is `k` errors from its end has ended after `k` steps, and stays
/// ended however many steps follow.
pub proof fn law_pass_ends(remaining: Seq<ChainError>, steps: nat)
    requires
        steps >= remaining.len(),
    ensures
        after_steps(remaining, steps).len() == 0,
    decreases steps,
{
    if steps > 0 {
        if remaining.len() > 0 {
            law_pass_ends(remaining.skip(1), (steps - 1) as nat);
        } else {
            law_pass_ends(remaining, (steps - 1) as nat);
        }
    }
}


/// Where `now` takes behind `piece` what `then` took behind `done` and
/// `piece`, `now` takes what `then` took behind the two as one text.
pub proof fn lemma_accepts_behind<S: Sink>(now: S, then: S, done: Seq<char>, piece: Seq<char>)
    requires
        forall|t: Seq<char>| #[trigger] now.accepts(t) == then.accepts(done + (piece + t)),
    ensures
        forall|t: Seq<char>| #[trigger] now.accepts(t) == then.accepts((done + piece) + t),
{
    assert forall|t: Seq<char>| #[trigger] now.accepts(t) == then.accepts((done + piece) + t) by {
        assert((done + piece) + t =~= done + (piece + t));
    }
}

/// A report's line is the root's text followed by what is appended for its
/// causes.
pub proof fn lemma_line_unfold(root: ChainError)
    ensures
        line(root) == root.text() + trailing(root.causes()),
    decreases root,
{
    lemma_chain_unfold(root);
    let parts = texts(root.chain());
    match root.cause {
        None => {
            assert(root.text() + trailing(root.causes()) =~= root.text());
        },
        Some(b) => {
            let c = *b;
            lemma_line_unfold(c);
            lemma_chain_unfold(c);
            assert(parts.skip(1) =~= texts(c.chain()));
            assert(c.chain().skip(1) == c.causes());
            assert(trailing(c.chain()) == delimiter() + c.text() + trailing(c.causes()));
            assert(root.text() + delimiter() + (c.text() + trailing(c.causes())) =~= root.text()
                + (delimiter() + c.text() + trailing(c.causes())));
        },
    }
}

} // verus!
