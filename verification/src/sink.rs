//! Where a report's text goes: sinks that take text piece by piece and may
//! refuse a piece.

use vstd::prelude::*;
use vstd::string::StrSliceExecFns;
use vstd::string::StringExecFns;

verus! {

/// The failure of a sink to take a piece of text. It carries nothing: a sink
/// says only that it failed.
#[derive(Debug, Clone, Copy, PartialEq, Eq, Structural)]
pub struct SinkError;

/// A destination for text. What a sink has taken stays taken: a later failure
/// retracts nothing. Whether a sink takes a text does not depend on the pieces
/// in which the text is offered.
pub trait Sink {
    /// All the text the sink has taken so far.
    spec fn written(&self) -> Seq<char>;

    /// Whether the sink, as it stands, takes the text `s` whole.
    spec fn accepts(&self, s: Seq<char>) -> bool;

    /// A sink that takes a text takes every front part of it.
    proof fn accepts_front(&self, s: Seq<char>, t: Seq<char>)
        requires
            self.accepts(s + t),
        ensures
            self.accepts(s),
    ;

    /// Offers one piece of text. On success the whole piece has been
    /// appended, and the sink then takes what it would have taken behind that
    /// piece before. On failure some front part of the piece, possibly empty,
    /// may have been appended.
    fn write_str(&mut self, s: &str) -> (r: Result<(), SinkError>)
        ensures
            r is Ok <==> old(self).accepts(s@),
            r is Ok ==> final(self).written() == old(self).written() + s@,
            r is Ok ==> forall|t: Seq<char>| #[trigger]
                final(self).accepts(t) == old(self).accepts(s@ + t),
            r is Err ==> old(self).written().is_prefix_of(final(self).written()),
            r is Err ==> final(self).written().is_prefix_of(old(self).written() + s@),
    ;
}

/// A sink that collects text in a `String` and never fails.
pub struct StringSink {
    text: String,
}

impl StringSink {
    /// The collected text.
    pub closed spec fn content(&self) -> Seq<char> {
        self.text@
    }

    /// An empty sink.
    pub fn new() -> (sink: StringSink)
        ensures
            sink.content() == Seq::<char>::empty(),
    {
        StringSink { text: String::new() }
    }

    /// Gives up the sink for the text it collected.
    pub fn into_string(self) -> (s: String)
        ensures
            s@ == self.content(),
    {
        self.text
    }
}

impl Sink for StringSink {
    open spec fn written(&self) -> Seq<char> {
        self.content()
    }

    open spec fn accepts(&self, s: Seq<char>) -> bool {
        true
    }

    proof fn accepts_front(&self, s: Seq<char>, t: Seq<char>) {
    }

    fn write_str(&mut self, s: &str) -> (r: Result<(), SinkError>) {
        self.text.append(s);
        Ok(())
    }
}

/// A sink that collects text up to a limit, counted in characters. A piece
/// that would take it over the limit is refused whole.
pub struct LimitedSink {
    text: String,
    limit: usize,
}

impl LimitedSink {
    /// The collected text.
    pub closed spec fn content(&self) -> Seq<char> {
        self.text@
    }

    /// The most characters the sink holds.
    pub closed spec fn limit(&self) -> nat {
        self.limit as nat
    }

    /// Whether a piece of `n` characters still fits.
    pub open spec fn fits(&self, n: nat) -> bool {
        self.content().len() + n <= self.limit()
    }

    /// An empty sink that holds at most `limit` characters.
    pub fn new(limit: usize) -> (sink: LimitedSink)
        ensures
            sink.content() == Seq::<char>::empty(),
            sink.limit() == limit,
    {
        LimitedSink { text: String::new(), limit }
    }

    /// The collected text.
    pub fn as_str(&self) -> (s: &str)
        ensures
            s@ == self.content(),
    {
        self.text.as_str()
    }
}

impl Sink for LimitedSink {
    open spec fn written(&self) -> Seq<char> {
        self.content()
    }

    open spec fn accepts(&self, s: Seq<char>) -> bool {
        self.fits(s.len())
    }

    proof fn accepts_front(&self, s: Seq<char>, t: Seq<char>) {
    }

    fn write_str(&mut self, s: &str) -> (r: Result<(), SinkError>)
        ensures
            final(self).limit() == old(self).limit(),
            r is Err ==> final(self).content() == old(self).content(),
    {
        let used: usize = self.text.as_str().unicode_len();
        let wanted: usize = s.unicode_len();
        if used <= self.limit && wanted <= self.limit - used {
            self.text.append(s);
            Ok(())
        } else {
            proof {
                lemma_prefix_of_append(self.content(), s@);
            }
            Err(SinkError)
        }
    }
}

/// A text begins itself, and begins whatever is appended to it.
proof fn lemma_prefix_of_append(a: Seq<char>, b: Seq<char>)
    ensures
        a.is_prefix_of(a),
        a.is_prefix_of(a + b),
{
    assert(a.subrange(0, a.len() as int) =~= a);
    assert((a + b).subrange(0, a.len() as int) =~= a);
}

/// If `w` lies between `a + b` and `a + b + c`, it lies between `a` and
/// `a + (b + c + d)` too.
pub proof fn lemma_prefix_widen(
    w: Seq<char>,
    a: Seq<char>,
    b: Seq<char>,
    c: Seq<char>,
    d: Seq<char>,
)
    requires
        (a + b).is_prefix_of(w),
        w.is_prefix_of(a + b + c),
    ensures
        a.is_prefix_of(w),
        w.is_prefix_of(a + (b + c + d)),
{
    let n = w.len() as int;
    assert(a =~= w.subrange(0, a.len() as int)) by {
        assert(a + b == w.subrange(0, (a + b).len() as int));
        assert(a =~= (a + b).subrange(0, a.len() as int));
    }
    assert(w =~= (a + (b + c + d)).subrange(0, n)) by {
        assert(w == (a + b + c).subrange(0, n));
    }
}

} // verus!
