//! Incremental decoding of a build-log response: a JSON array delivered in
//! arbitrarily sized byte chunks.
//!
//! [`ArrayStream`] buffers undecoded bytes.  `extend` appends a chunk;
//! `try_next` yields the next complete element of the array without waiting
//! for the closing bracket, which a stream may never send.  Its behaviour
//! is specified exactly by [`stream_step`], and the lemmas at the end of
//! the module prove that the sequence of decoded values does not depend on
//! how the byte stream was cut into chunks.

use vstd::prelude::*;

use vstd::string::StringExecFns;

use crate::json::{
    is_ws, jview, sp_value, Json, JsonV, Parsed, SpParse, lemma_value_consumes,
    lemma_value_stable, lemma_value_shift, parse_value,
};

verus! {

/// The state of a build-log stream decoder: the bytes not yet consumed and
/// whether the opening `[` of the top-level array has been seen.
#[verifier::ext_equal]
pub struct StreamModel {
    pub buf: Seq<u8>,
    pub started: bool,
}

/// What one [`ArrayStream::try_next`] call yields.
pub enum Next {
    /// The next complete element of the array.
    Val(Json),
    /// The buffered bytes do not yet hold a complete element.
    Pending,
    /// The top-level array was closed by `]`.
    Closed,
    /// The buffered bytes cannot be extended into a JSON value.
    Bad,
}

/// Model-level outcome of one decoding step.
pub enum StepRes {
    Val(JsonV),
    Pending,
    Closed,
    Bad,
}

/// Top-level skipping: from index `i`, consume whitespace, one `[` before
/// any element has been decoded, and `,` separators after it.  Returns the
/// first index that must start a value (or close the array) and the updated
/// `started` flag.
pub open spec fn cut_state(s: Seq<u8>, i: int, started: bool) -> (int, bool)
    decreases s.len() - i,
{
    if i < 0 || i >= s.len() {
        (i, started)
    } else if is_ws(s[i]) {
        cut_state(s, i + 1, started)
    } else if s[i] == 91 && !started {
        cut_state(s, i + 1, true)
    } else if s[i] == 44 && started {
        cut_state(s, i + 1, started)
    } else {
        (i, started)
    }
}

/// One decoding step of the stream: skip separators, then either report the
/// close of the array, or decode one element, or report that more bytes are
/// needed, or report a malformed stream.  Returns the successor state and
/// the step's outcome; consumed bytes are dropped from the buffer.
pub open spec fn stream_step(m: StreamModel) -> (StreamModel, StepRes) {
    let cut = cut_state(m.buf, 0, m.started).0;
    let st2 = cut_state(m.buf, 0, m.started).1;
    if cut >= m.buf.len() {
        (StreamModel { buf: Seq::empty(), started: st2 }, StepRes::Pending)
    } else if st2 && m.buf[cut] == 93 {
        (StreamModel { buf: m.buf.subrange(cut, m.buf.len() as int), started: st2 },
        StepRes::Closed)
    } else {
        match sp_value(m.buf, cut) {
            SpParse::Val { v, end } => (
                StreamModel { buf: m.buf.subrange(end, m.buf.len() as int), started: st2 },
                StepRes::Val(v),
            ),
            SpParse::Pending => (
                StreamModel { buf: m.buf.subrange(cut, m.buf.len() as int), started: st2 },
                StepRes::Pending,
            ),
            SpParse::Bad => (
                StreamModel { buf: m.buf.subrange(cut, m.buf.len() as int), started: st2 },
                StepRes::Bad,
            ),
        }
    }
}

/// The state after appending a chunk of bytes.
pub open spec fn feed(m: StreamModel, t: Seq<u8>) -> StreamModel {
    StreamModel { buf: m.buf + t, started: m.started }
}

proof fn lemma_cut_bounds(s: Seq<u8>, i: int, started: bool)
    requires
        0 <= i <= s.len(),
    ensures
        i <= cut_state(s, i, started).0 <= s.len(),
        cut_state(s, i, started).0 < s.len() ==> !is_ws(s[cut_state(s, i, started).0]),
        cut_state(s, i, started).0 < s.len() ==> !(s[cut_state(s, i, started).0] == 91
            && !cut_state(s, i, started).1),
        cut_state(s, i, started).0 < s.len() ==> !(s[cut_state(s, i, started).0] == 44
            && cut_state(s, i, started).1),
    decreases s.len() - i,
{
    if i < s.len() {
        if is_ws(s[i]) {
            lemma_cut_bounds(s, i + 1, started);
        } else if s[i] == 91 && !started {
            lemma_cut_bounds(s, i + 1, true);
        } else if s[i] == 44 && started {
            lemma_cut_bounds(s, i + 1, started);
        }
    }
}

/// An incremental decoder for a JSON array delivered in chunks.
///
/// The buffer never loses bytes: a partial value stays buffered until
/// enough bytes arrive to complete it.
pub struct ArrayStream {
    buf: Vec<u8>,
    started: bool,
}

impl View for ArrayStream {
    type V = StreamModel;

    closed spec fn view(&self) -> StreamModel {
        StreamModel { buf: self.buf@, started: self.started }
    }
}

impl ArrayStream {
    /// An empty decoder: no bytes buffered, opening bracket not yet seen.
    pub fn new() -> (s: Self)
        ensures
            s@ == (StreamModel { buf: Seq::<u8>::empty(), started: false }),
    {
        ArrayStream { buf: Vec::new(), started: false }
    }

    /// Append a chunk of raw bytes to the buffer.
    pub fn extend(&mut self, chunk: &[u8])
        ensures
            final(self)@ == feed(old(self)@, chunk@),
    {
        self.buf.extend_from_slice(chunk);
    }

    /// Decode the next element of the array, if the buffered bytes already
    /// hold one; performs exactly one [`stream_step`] of the model.
    pub fn try_next(&mut self) -> (r: Next)
        ensures
            final(self)@ == stream_step(old(self)@).0,
            (match r {
                Next::Val(j) => stream_step(old(self)@).1 == StepRes::Val(jview(j)),
                Next::Pending => stream_step(old(self)@).1 is Pending,
                Next::Closed => stream_step(old(self)@).1 is Closed,
                Next::Bad => stream_step(old(self)@).1 is Bad,
            }),
    {
        let n = self.buf.len();
        let mut cut: usize = 0;
        let mut started = self.started;
        loop
            invariant
                self@ == old(self)@,
                n == self.buf@.len(),
                cut <= n,
                cut_state(self.buf@, 0, old(self)@.started) == cut_state(
                    self.buf@,
                    cut as int,
                    started,
                ),
            decreases n - cut,
        {
            if cut >= n {
                self.started = started;
                let rest = Vec::new();
                self.buf = rest;
                return Next::Pending;
            }
            let c = self.buf[cut];
            if c == 32 || c == 9 || c == 10 || c == 13 {
                cut = cut + 1;
            } else if c == 91 && !started {
                started = true;
                cut = cut + 1;
            } else if c == 44 && started {
                cut = cut + 1;
            } else if c == 93 && started {
                let rest = crate::json::copy_range(&self.buf, cut, n);
                self.buf = rest;
                self.started = started;
                return Next::Closed;
            } else {
                match parse_value(&self.buf, cut) {
                    Parsed::Val(j, e) => {
                        let rest = crate::json::copy_range(&self.buf, e, n);
                        self.buf = rest;
                        self.started = started;
                        return Next::Val(j);
                    }
                    Parsed::Pending => {
                        let rest = crate::json::copy_range(&self.buf, cut, n);
                        self.buf = rest;
                        self.started = started;
                        return Next::Pending;
                    }
                    Parsed::Bad => {
                        let rest = crate::json::copy_range(&self.buf, cut, n);
                        self.buf = rest;
                        self.started = started;
                        return Next::Bad;
                    }
                }
            }
        }
    }
}

/// How a run of `try_next` calls ends when no more bytes arrive.
pub enum DrainEnd {
    Pending,
    Closed,
    Bad,
}

/// Everything a run of `try_next` calls yields from a given state: the
/// decoded values in order, how the run ends, and the state left behind.
#[verifier::ext_equal]
pub struct Drained {
    pub vals: Seq<JsonV>,
    pub end: DrainEnd,
    pub model: StreamModel,
}

/// Repeat [`stream_step`] until it stops yielding values.  This is the
/// meaning of "decoding the buffered bytes at once".
pub open spec fn drain(m: StreamModel) -> Drained
    decreases m.buf.len(),
    via drain_decreases
{
    match stream_step(m).1 {
        StepRes::Val(v) => {
            let d = drain(stream_step(m).0);
            Drained { vals: seq![v] + d.vals, end: d.end, model: d.model }
        }
        StepRes::Pending => Drained {
            vals: Seq::empty(),
            end: DrainEnd::Pending,
            model: stream_step(m).0,
        },
        StepRes::Closed => Drained {
            vals: Seq::empty(),
            end: DrainEnd::Closed,
            model: stream_step(m).0,
        },
        StepRes::Bad => Drained { vals: Seq::empty(), end: DrainEnd::Bad, model: stream_step(m).0 },
    }
}

#[via_fn]
proof fn drain_decreases(m: StreamModel) {
    lemma_cut_bounds(m.buf, 0, m.started);
    let cut = cut_state(m.buf, 0, m.started).0;
    if 0 <= cut < m.buf.len() {
        lemma_value_consumes(m.buf, cut);
    }
}

proof fn lemma_cut_stable(s: Seq<u8>, t: Seq<u8>, i: int, started: bool)
    requires
        0 <= i <= s.len(),
        cut_state(s, i, started).0 < s.len(),
    ensures
        cut_state(s + t, i, started) == cut_state(s, i, started),
    decreases s.len() - i,
{
    if i < s.len() {
        assert((s + t)[i] == s[i]);
        if is_ws(s[i]) {
            lemma_cut_stable(s, t, i + 1, started);
        } else if s[i] == 91 && !started {
            lemma_cut_stable(s, t, i + 1, true);
        } else if s[i] == 44 && started {
            lemma_cut_stable(s, t, i + 1, started);
        }
    }
}

proof fn lemma_cut_shift(u: Seq<u8>, s: Seq<u8>, i: int, started: bool)
    requires
        0 <= i,
    ensures
        cut_state(u + s, u.len() + i, started) == (
            u.len() + cut_state(s, i, started).0,
            cut_state(s, i, started).1,
        ),
    decreases s.len() - i,
{
    if i < s.len() {
        assert((u + s)[u.len() + i] == s[i]);
        if is_ws(s[i]) {
            lemma_cut_shift(u, s, i + 1, started);
        } else if s[i] == 91 && !started {
            lemma_cut_shift(u, s, i + 1, true);
        } else if s[i] == 44 && started {
            lemma_cut_shift(u, s, i + 1, started);
        }
    } else {
        assert((u + s).len() == u.len() + s.len());
    }
}

proof fn lemma_cut_append(s: Seq<u8>, t: Seq<u8>, i: int, started: bool)
    requires
        0 <= i <= s.len(),
        cut_state(s, i, started).0 >= s.len(),
    ensures
        cut_state(s + t, i, started) == cut_state(
            s + t,
            s.len() as int,
            cut_state(s, i, started).1,
        ),
    decreases s.len() - i,
{
    if i < s.len() {
        assert((s + t)[i] == s[i]);
        if is_ws(s[i]) {
            lemma_cut_append(s, t, i + 1, started);
        } else if s[i] == 91 && !started {
            lemma_cut_append(s, t, i + 1, true);
        } else if s[i] == 44 && started {
            lemma_cut_append(s, t, i + 1, started);
        }
    }
}

/// How one step behaves when bytes are appended first: a yielded value, a
/// close and a malformed verdict are unaffected; only after a `Pending`
/// step can the appended bytes change the outcome, and then stepping the
/// drained state is the same as stepping the extended original.
proof fn lemma_step_extend(m: StreamModel, t: Seq<u8>)
    ensures
        stream_step(m).1 matches StepRes::Val(v) ==> stream_step(feed(m, t)) == (
            feed(stream_step(m).0, t),
            StepRes::Val(v),
        ),
        stream_step(m).1 is Closed ==> stream_step(feed(m, t)) == (
            feed(stream_step(m).0, t),
            StepRes::Closed,
        ),
        stream_step(m).1 is Bad ==> stream_step(feed(m, t)) == (
            feed(stream_step(m).0, t),
            StepRes::Bad,
        ),
        stream_step(m).1 is Pending ==> stream_step(feed(m, t)) == stream_step(
            feed(stream_step(m).0, t),
        ),
{
    let buf = m.buf;
    let n = buf.len() as int;
    lemma_cut_bounds(buf, 0, m.started);
    let cut = cut_state(buf, 0, m.started).0;
    let st2 = cut_state(buf, 0, m.started).1;
    if cut >= n {
        // The whole buffer is separators: the drained state is empty and
        // stepping the extension scans the same separators first.
        lemma_cut_append(buf, t, 0, m.started);
        lemma_cut_shift(buf, t, 0, st2);
        let ct = cut_state(t, 0, st2).0;
        let stt = cut_state(t, 0, st2).1;
        assert(cut_state(buf + t, 0, m.started) == (n + ct, stt));
        lemma_cut_bounds(t, 0, st2);
        assert(feed(stream_step(m).0, t).buf =~= t);
        if ct < t.len() {
            assert((buf + t)[n + ct] == t[ct]);
            lemma_value_shift(buf, t, ct);
            match sp_value(t, ct) {
                SpParse::Val { v, end } => {
                    lemma_value_consumes(t, ct);
                    assert((buf + t).subrange(n + end, n + t.len()) =~= t.subrange(
                        end,
                        t.len() as int,
                    ));
                }
                SpParse::Pending => {
                    assert((buf + t).subrange(n + ct, n + t.len()) =~= t.subrange(
                        ct,
                        t.len() as int,
                    ));
                }
                SpParse::Bad => {
                    assert((buf + t).subrange(n + ct, n + t.len()) =~= t.subrange(
                        ct,
                        t.len() as int,
                    ));
                }
            }
        }
    } else {
        lemma_cut_stable(buf, t, 0, m.started);
        assert((buf + t)[cut] == buf[cut]);
        if st2 && buf[cut] == 93 {
            assert((buf + t).subrange(cut, n + t.len()) =~= buf.subrange(cut, n) + t);
        } else {
            lemma_value_stable(buf, t, 0);
            lemma_value_consumes(buf, cut);
            lemma_value_stable(buf, t, cut);
            match sp_value(buf, cut) {
                SpParse::Val { v, end } => {
                    assert((buf + t).subrange(end, n + t.len()) =~= buf.subrange(end, n) + t);
                }
                SpParse::Bad => {
                    assert((buf + t).subrange(cut, n + t.len()) =~= buf.subrange(cut, n) + t);
                }
                SpParse::Pending => {
                    // Relate stepping the extended buffer at `cut` to
                    // stepping the drained suffix from its start.
                    let u = buf.subrange(0, cut);
                    let sub = buf.subrange(cut, n);
                    assert(buf + t =~= u + (sub + t));
                    lemma_cut_bounds(buf, 0, m.started);
                    assert(sub.len() > 0 && (sub + t)[0] == buf[cut]);
                    assert(cut_state(sub + t, 0, st2) == (0int, st2));
                    lemma_value_shift(u, sub + t, 0);
                    assert(sp_value(buf + t, cut) == (match sp_value(sub + t, 0) {
                        SpParse::Val { v, end } => SpParse::Val { v, end: cut + end },
                        SpParse::Pending => SpParse::Pending,
                        SpParse::Bad => SpParse::Bad,
                    }));
                    assert(feed(stream_step(m).0, t).buf == sub + t);
                    match sp_value(sub + t, 0) {
                        SpParse::Val { v, end } => {
                            lemma_value_consumes(sub + t, 0);
                            assert((buf + t).subrange(cut + end, n + t.len()) =~= (sub
                                + t).subrange(end, (sub + t).len() as int));
                        }
                        SpParse::Pending => {
                            assert((buf + t).subrange(cut, n + t.len()) =~= (sub + t).subrange(
                                0,
                                (sub + t).len() as int,
                            ));
                        }
                        SpParse::Bad => {
                            assert((buf + t).subrange(cut, n + t.len()) =~= (sub + t).subrange(
                                0,
                                (sub + t).len() as int,
                            ));
                        }
                    }
                }
            }
        }
    }
}

/// States whose step agrees in both components drain identically.
proof fn lemma_drain_same_step(a: StreamModel, b: StreamModel)
    requires
        stream_step(a) == stream_step(b),
    ensures
        drain(a) == drain(b),
{
}

/// A stream state that has reported its close or a malformed prefix.
pub open spec fn stuck(m: StreamModel) -> bool {
    stream_step(m).1 is Closed || stream_step(m).1 is Bad
}

proof fn lemma_stuck_next(m: StreamModel)
    requires
        stuck(m),
    ensures
        stuck(stream_step(m).0),
        stream_step(stream_step(m).0).1 == stream_step(m).1,
{
    let buf = m.buf;
    let n = buf.len() as int;
    lemma_cut_bounds(buf, 0, m.started);
    let cut = cut_state(buf, 0, m.started).0;
    let st2 = cut_state(buf, 0, m.started).1;
    let sub = buf.subrange(cut, n);
    assert(sub.len() > 0 && sub[0] == buf[cut]);
    assert(cut_state(sub, 0, st2) == (0int, st2));
    if !(st2 && buf[cut] == 93) {
        let u = buf.subrange(0, cut);
        assert(buf =~= u + sub);
        lemma_value_shift(u, sub, 0);
    }
    assert(sub.subrange(0, sub.len() as int) =~= sub);
}

/// How a full drain behaves when bytes are appended first: every value
/// already decodable is decoded the same way, and if the drain was still
/// waiting for bytes, the appended bytes simply continue it.  With
/// [`lemma_chunk_invariance`] this covers any interleaving of `extend`
/// and `try_next` calls.
pub proof fn lemma_drain_extend(m: StreamModel, t: Seq<u8>)
    ensures
        drain(m).end is Pending ==> drain(feed(m, t)).vals == drain(m).vals + drain(
            feed(drain(m).model, t),
        ).vals && drain(feed(m, t)).end == drain(feed(drain(m).model, t)).end && drain(
            feed(m, t),
        ).model == drain(feed(drain(m).model, t)).model,
        drain(m).end is Closed ==> drain(feed(m, t)) == (Drained {
            vals: drain(m).vals,
            end: DrainEnd::Closed,
            model: feed(drain(m).model, t),
        }),
        drain(m).end is Bad ==> drain(feed(m, t)) == (Drained {
            vals: drain(m).vals,
            end: DrainEnd::Bad,
            model: feed(drain(m).model, t),
        }),
    decreases m.buf.len(),
{
    lemma_step_extend(m, t);
    let m2 = stream_step(m).0;
    match stream_step(m).1 {
        StepRes::Val(v) => {
            lemma_cut_bounds(m.buf, 0, m.started);
            lemma_value_consumes(m.buf, cut_state(m.buf, 0, m.started).0);
            lemma_drain_extend(m2, t);
            match drain(m2).end {
                DrainEnd::Pending => {
                    assert(seq![v] + (drain(m2).vals + drain(feed(drain(m2).model, t)).vals) =~= (
                    seq![v] + drain(m2).vals) + drain(feed(drain(m2).model, t)).vals);
                }
                DrainEnd::Closed => {}
                DrainEnd::Bad => {}
            }
        }
        StepRes::Pending => {
            lemma_drain_same_step(feed(m, t), feed(m2, t));
        }
        StepRes::Closed => {}
        StepRes::Bad => {}
    }
}

proof fn lemma_drain_model_stuck(m: StreamModel)
    ensures
        drain(m).end is Closed || drain(m).end is Bad ==> stuck(drain(m).model),
    decreases m.buf.len(),
{
    match stream_step(m).1 {
        StepRes::Val(v) => {
            lemma_cut_bounds(m.buf, 0, m.started);
            lemma_value_consumes(m.buf, cut_state(m.buf, 0, m.started).0);
            lemma_drain_model_stuck(stream_step(m).0);
        }
        StepRes::Pending => {}
        StepRes::Closed => {
            lemma_stuck_next(m);
        }
        StepRes::Bad => {
            lemma_stuck_next(m);
        }
    }
}

/// A stuck stream yields no further values, whatever bytes arrive.
proof fn lemma_stuck_feed(m: StreamModel, t: Seq<u8>)
    requires
        stuck(m),
    ensures
        drain(feed(m, t)).vals == Seq::<JsonV>::empty(),
        stuck(drain(feed(m, t)).model),
    decreases 0int,
{
    lemma_step_extend(m, t);
    lemma_stuck_next(m);
    lemma_step_extend(stream_step(m).0, t);
}

/// The concatenation of a sequence of chunks.
pub open spec fn concat_chunks(chunks: Seq<Seq<u8>>) -> Seq<u8>
    decreases chunks.len(),
{
    if chunks.len() == 0 {
        Seq::empty()
    } else {
        chunks.first() + concat_chunks(chunks.drop_first())
    }
}

/// All values decoded when the chunks are fed one at a time, the stream
/// drained after each chunk.
pub open spec fn drain_chunks(m: StreamModel, chunks: Seq<Seq<u8>>) -> Seq<JsonV>
    decreases chunks.len(),
{
    if chunks.len() == 0 {
        Seq::empty()
    } else {
        drain(feed(m, chunks.first())).vals + drain_chunks(
            drain(feed(m, chunks.first())).model,
            chunks.drop_first(),
        )
    }
}

proof fn lemma_chunks_stuck(m: StreamModel, chunks: Seq<Seq<u8>>)
    requires
        stuck(m),
    ensures
        drain_chunks(m, chunks) == Seq::<JsonV>::empty(),
    decreases chunks.len(),
{
    if chunks.len() > 0 {
        lemma_stuck_feed(m, chunks.first());
        lemma_chunks_stuck(drain(feed(m, chunks.first())).model, chunks.drop_first());
        assert(drain_chunks(m, chunks) =~= Seq::<JsonV>::empty());
    }
}

/// Chunk-invariance: however a byte stream is cut into chunks, feeding the
/// chunks one at a time and draining the decoder after each one yields
/// exactly the values of decoding the whole stream at once.
pub proof fn lemma_chunk_invariance(m: StreamModel, chunks: Seq<Seq<u8>>)
    requires
        chunks.len() > 0,
    ensures
        drain_chunks(m, chunks) == drain(feed(m, concat_chunks(chunks))).vals,
    decreases chunks.len(),
{
    let c1 = chunks.first();
    let rest = chunks.drop_first();
    let d = drain(feed(m, c1));
    if rest.len() == 0 {
        assert(concat_chunks(chunks) =~= c1);
        assert(drain_chunks(d.model, rest) == Seq::<JsonV>::empty());
        assert(drain_chunks(m, chunks) =~= d.vals);
    } else {
        let t = concat_chunks(rest);
        assert(feed(m, concat_chunks(chunks)).buf =~= feed(feed(m, c1), t).buf);
        assert(feed(m, concat_chunks(chunks)) == feed(feed(m, c1), t));
        lemma_drain_extend(feed(m, c1), t);
        match d.end {
            DrainEnd::Pending => {
                lemma_chunk_invariance(d.model, rest);
            }
            DrainEnd::Closed => {
                lemma_drain_model_stuck(feed(m, c1));
                lemma_chunks_stuck(d.model, rest);
                assert(drain_chunks(m, chunks) =~= d.vals);
            }
            DrainEnd::Bad => {
                lemma_drain_model_stuck(feed(m, c1));
                lemma_chunks_stuck(d.model, rest);
                assert(drain_chunks(m, chunks) =~= d.vals);
            }
        }
    }
}

/// The endpoint that triggers a remote build of an application.
pub fn get_build_application_endpoint(username: &str, app: &str) -> (r: String)
    ensures
        r@ == "v3/build?owner="@ + username@ + "&app="@ + app@
            + "&dockerfilePath=&emulated=false&nocache=false&headless=false"@,
{
    let mut s = String::new();
    s.append("v3/build?owner=");
    s.append(username);
    s.append("&app=");
    s.append(app);
    s.append("&dockerfilePath=&emulated=false&nocache=false&headless=false");
    proof {
        assert(Seq::<char>::empty() + "v3/build?owner="@ =~= "v3/build?owner="@);
    }
    s
}

/// The full URL of a builder endpoint.
pub fn builder_url(endpoint: &str) -> (r: String)
    ensures
        r@ == "https://builder.balena-cloud.com/"@ + endpoint@,
{
    let mut s = String::new();
    s.append("https://builder.balena-cloud.com/");
    s.append(endpoint);
    proof {
        assert(Seq::<char>::empty() + "https://builder.balena-cloud.com/"@
            =~= "https://builder.balena-cloud.com/"@);
    }
    s
}

} // verus!
