use crate::gzip::GzipDecoder;
use crate::json::{usage_numbers, usage_numbers_of};
use crate::proxy::{usage_modes, BodyBuffer};
use vstd::prelude::*;

verus! {

/// Largest response body kept for a one-shot JSON usage parse.
pub const MAX_PARSE_BYTES: usize = 32 * 1024 * 1024;

/// Token counts reported by an upstream.
#[derive(Clone, Copy, Debug, PartialEq, Eq)]
pub struct UsageTokens {
    pub prompt: u64,
    pub completion: u64,
    pub total: u64,
}

pub open spec fn sat_add_u64(a: u64, b: u64) -> u64 {
    if a + b > u64::MAX {
        u64::MAX
    } else {
        (a + b) as u64
    }
}

/// Usage from the three members: none when all are missing; a missing
/// total is `prompt + completion` when both are there (saturating), else 0;
/// other missing members count 0.
pub open spec fn usage_spec(p: Option<u64>, c: Option<u64>, t: Option<u64>) -> Option<UsageTokens> {
    let total = match t {
        Some(x) => Some(x),
        None => match (p, c) {
            (Some(a), Some(b)) => Some(sat_add_u64(a, b)),
            _ => None,
        },
    };
    if p is None && c is None && total is None {
        None
    } else {
        Some(
            UsageTokens {
                prompt: match p {
                    Some(x) => x,
                    None => 0,
                },
                completion: match c {
                    Some(x) => x,
                    None => 0,
                },
                total: match total {
                    Some(x) => x,
                    None => 0,
                },
            },
        )
    }
}

pub fn usage_from_numbers(p: Option<u64>, c: Option<u64>, t: Option<u64>) -> (r: Option<UsageTokens>)
    ensures
        r == usage_spec(p, c, t),
{
    let total = match t {
        Some(x) => Some(x),
        None => match (p, c) {
            (Some(a), Some(b)) => Some(if a > u64::MAX - b { u64::MAX } else { a + b }),
            _ => None,
        },
    };
    if p.is_none() && c.is_none() && total.is_none() {
        return None;
    }
    Some(
        UsageTokens {
            prompt: match p {
                Some(x) => x,
                None => 0,
            },
            completion: match c {
                Some(x) => x,
                None => 0,
            },
            total: match total {
                Some(x) => x,
                None => 0,
            },
        },
    )
}

pub open spec fn usage_of_json(b: Seq<u8>) -> Option<UsageTokens> {
    match usage_numbers_of(b) {
        Some((p, c, t)) => usage_spec(p, c, t),
        None => None,
    }
}

/// Usage found at the top level of a JSON document.
pub fn usage_from_json_bytes(body: &[u8]) -> (r: Option<UsageTokens>)
    ensures
        r == usage_of_json(body@),
{
    match usage_numbers(body) {
        Some((p, c, t)) => usage_from_numbers(p, c, t),
        None => None,
    }
}

/// The lines closed by the bytes of `s`, the first one continuing `cur`,
/// and what is left after the last line feed.
pub open spec fn split_from(cur: Seq<u8>, s: Seq<u8>) -> (Seq<Seq<u8>>, Seq<u8>)
    decreases s.len(),
{
    if s.len() == 0 {
        (Seq::empty(), cur)
    } else if s[0] == 10 {
        let (l, r) = split_from(Seq::empty(), s.drop_first());
        (seq![cur] + l, r)
    } else {
        split_from(cur.push(s[0]), s.drop_first())
    }
}

/// Splitting is insensitive to where chunk boundaries fall.
pub proof fn lemma_split_concat(cur: Seq<u8>, a: Seq<u8>, b: Seq<u8>)
    ensures
        split_from(cur, a + b) == ({
            let (l1, r1) = split_from(cur, a);
            let (l2, r2) = split_from(r1, b);
            (l1 + l2, r2)
        }),
    decreases a.len(),
{
    if a.len() == 0 {
        assert(a + b =~= b);
        let (l2, r2) = split_from(cur, b);
        assert(Seq::<Seq<u8>>::empty() + l2 =~= l2);
    } else {
        assert((a + b).drop_first() =~= a.drop_first() + b);
        assert((a + b)[0] == a[0]);
        if a[0] == 10 {
            lemma_split_concat(Seq::empty(), a.drop_first(), b);
            let (l1, r1) = split_from(Seq::empty(), a.drop_first());
            let (l2, r2) = split_from(r1, b);
            assert(seq![cur] + (l1 + l2) =~= (seq![cur] + l1) + l2);
        } else {
            lemma_split_concat(cur.push(a[0]), a.drop_first(), b);
        }
    }
}

/// A line without one trailing carriage return.
pub open spec fn strip_cr(l: Seq<u8>) -> Seq<u8> {
    if l.len() > 0 && l.last() == 13 {
        l.drop_last()
    } else {
        l
    }
}

/// Buffers a byte stream and hands out its complete lines.
pub struct LineBuffer {
    buf: Vec<u8>,
}

impl LineBuffer {
    pub closed spec fn pending(&self) -> Seq<u8> {
        self.buf@
    }

    pub fn new() -> (r: LineBuffer)
        ensures
            r.pending() == Seq::<u8>::empty(),
    {
        LineBuffer { buf: Vec::new() }
    }

    /// Hands out the unterminated tail and empties the buffer.
    pub fn take_rest(&mut self) -> (r: Vec<u8>)
        ensures
            r@ == old(self).pending(),
            final(self).pending() == Seq::<u8>::empty(),
    {
        let mut out: Vec<u8> = Vec::new();
        std::mem::swap(&mut out, &mut self.buf);
        out
    }

    /// Appends a chunk and returns the lines it completes, line feeds removed
    /// (carriage returns are kept).
    pub fn feed(&mut self, chunk: &[u8]) -> (r: Vec<Vec<u8>>)
        ensures
            r@.map_values(|l: Vec<u8>| l@) == split_from(old(self).pending(), chunk@).0,
            final(self).pending() == split_from(old(self).pending(), chunk@).1,
    {
        let mut out: Vec<Vec<u8>> = Vec::new();
        let mut i: usize = 0;
        let ghost start = self.buf@;
        proof {
            assert(chunk@.subrange(0, chunk@.len() as int) =~= chunk@);
            let (l, rest) = split_from(start, chunk@);
            assert(out@.map_values(|l: Vec<u8>| l@) + l =~= l);
        }
        while i < chunk.len()
            invariant
                i <= chunk@.len(),
                split_from(start, chunk@) == ({
                    let (l, rest) = split_from(self.buf@, chunk@.subrange(i as int, chunk@.len() as int));
                    (out@.map_values(|l: Vec<u8>| l@) + l, rest)
                }),
            decreases chunk@.len() - i,
        {
            let ghost tail = chunk@.subrange(i as int, chunk@.len() as int);
            assert(tail.drop_first() =~= chunk@.subrange(i + 1, chunk@.len() as int));
            assert(tail[0] == chunk@[i as int]);
            let b = chunk[i];
            if b == 10 {
                let mut line: Vec<u8> = Vec::new();
                std::mem::swap(&mut line, &mut self.buf);
                let ghost before = out@;
                out.push(line);
                proof {
                    let (l, rest) = split_from(Seq::empty(), tail.drop_first());
                    assert(out@.map_values(|l: Vec<u8>| l@) =~= before.map_values(|l: Vec<u8>| l@).push(line@));
                    assert(before.map_values(|l: Vec<u8>| l@) + (seq![line@] + l) =~= out@.map_values(|l: Vec<u8>| l@) + l);
                }
            } else {
                self.buf.push(b);
            }
            i = i + 1;
        }
        proof {
            let tail = chunk@.subrange(i as int, chunk@.len() as int);
            assert(tail.len() == 0);
            assert(out@.map_values(|l: Vec<u8>| l@) + Seq::<Seq<u8>>::empty() =~= out@.map_values(|l: Vec<u8>| l@));
        }
        out
    }
}

pub open spec fn is_ascii_ws(b: u8) -> bool {
    b == 32 || b == 9 || b == 10 || b == 11 || b == 12 || b == 13
}

/// A byte string without leading and trailing ASCII whitespace.
pub open spec fn trim_ws(s: Seq<u8>) -> Seq<u8>
    decreases s.len(),
{
    if s.len() > 0 && is_ascii_ws(s[0]) {
        trim_ws(s.drop_first())
    } else if s.len() > 0 && is_ascii_ws(s.last()) {
        trim_ws(s.drop_last())
    } else {
        s
    }
}

fn trim_ws_exec(s: &[u8]) -> (r: Vec<u8>)
    ensures
        r@ == trim_ws(s@),
{
    let mut lo: usize = 0;
    let mut hi: usize = s.len();
    assert(s@.subrange(0, s@.len() as int) =~= s@);
    while lo < hi && (s[lo] == 32 || s[lo] == 9 || s[lo] == 10 || s[lo] == 11 || s[lo] == 12 || s[lo] == 13)
        invariant
            lo <= hi,
            hi == s@.len(),
            trim_ws(s@) == trim_ws(s@.subrange(lo as int, hi as int)),
        decreases hi - lo,
    {
        assert(s@.subrange(lo as int, hi as int).drop_first() =~= s@.subrange(lo + 1, hi as int));
        lo = lo + 1;
    }
    while lo < hi && (s[hi - 1] == 32 || s[hi - 1] == 9 || s[hi - 1] == 10 || s[hi - 1] == 11 || s[hi - 1] == 12 || s[hi - 1] == 13)
        invariant
            lo <= hi,
            hi <= s@.len(),
            lo < hi ==> !is_ascii_ws(s@[lo as int]),
            trim_ws(s@) == trim_ws(s@.subrange(lo as int, hi as int)),
        decreases hi - lo,
    {
        assert(s@.subrange(lo as int, hi as int).drop_last() =~= s@.subrange(lo as int, hi - 1));
        assert(s@.subrange(lo as int, hi as int)[0] == s@[lo as int]);
        hi = hi - 1;
    }
    let mut out: Vec<u8> = Vec::new();
    let mut k: usize = lo;
    while k < hi
        invariant
            lo <= k <= hi,
            hi <= s@.len(),
            out@ == s@.subrange(lo as int, k as int),
        decreases hi - k,
    {
        out.push(s[k]);
        k = k + 1;
        assert(out@ =~= s@.subrange(lo as int, k as int));
    }
    proof {
        let t = s@.subrange(lo as int, hi as int);
        if t.len() > 0 {
            assert(t[0] == s@[lo as int]);
            assert(t.last() == s@[hi - 1]);
        }
    }
    out
}

pub open spec fn data_prefix() -> Seq<u8> {
    seq![100u8, 97u8, 116u8, 97u8, 58u8]
}

pub open spec fn done_marker() -> Seq<u8> {
    seq![91u8, 68u8, 79u8, 78u8, 69u8, 93u8]
}

pub open spec fn usage_needle() -> Seq<u8> {
    seq![34u8, 117u8, 115u8, 97u8, 103u8, 101u8, 34u8]
}

pub open spec fn occurs_at(needle: Seq<u8>, s: Seq<u8>, i: int) -> bool {
    0 <= i && i + needle.len() <= s.len() && s.subrange(i, i + needle.len()) == needle
}

pub open spec fn occurs(needle: Seq<u8>, s: Seq<u8>) -> bool {
    exists|i: int| occurs_at(needle, s, i)
}

/// The payload of an SSE line worth parsing for usage: a `data:` line, its
/// payload trimmed, not `[DONE]`, mentioning `"usage"`.
pub open spec fn usage_payload(line: Seq<u8>) -> Option<Seq<u8>> {
    let l = strip_cr(line);
    if l.len() >= 5 && l.subrange(0, 5) == data_prefix() {
        let d = trim_ws(l.subrange(5, l.len() as int));
        if d != done_marker() && occurs(usage_needle(), d) {
            Some(d)
        } else {
            None
        }
    } else {
        None
    }
}

fn contains_bytes(s: &[u8], needle: &[u8]) -> (r: bool)
    ensures
        r == occurs(needle@, s@),
{
    if needle.len() > s.len() {
        proof {
            assert forall|i: int| !occurs_at(needle@, s@, i) by {}
        }
        return false;
    }
    let mut i: usize = 0;
    while i <= s.len() - needle.len()
        invariant
            needle@.len() <= s@.len(),
            i <= s@.len() - needle@.len() + 1,
            forall|j: int| 0 <= j < i ==> !occurs_at(needle@, s@, j),
        decreases s@.len() - i,
    {
        let mut k: usize = 0;
        let mut same = true;
        while k < needle.len()
            invariant
                i + needle@.len() <= s@.len(),
                k <= needle@.len(),
                same == forall|m: int| 0 <= m < k ==> s@[i + m] == needle@[m],
            decreases needle@.len() - k,
        {
            assert(i + k < s@.len() && s@.len() == s.len());
            if s[i + k] != needle[k] {
                same = false;
            }
            k = k + 1;
        }
        if same {
            assert(s@.subrange(i as int, i + needle@.len()) =~= needle@);
            assert(occurs_at(needle@, s@, i as int));
            return true;
        }
        proof {
            let m = choose|m: int| 0 <= m < needle@.len() && s@[i + m] != needle@[m];
            assert(s@.subrange(i as int, i + needle@.len())[m] != needle@[m]);
        }
        i = i + 1;
    }
    proof {
        assert forall|j: int| !occurs_at(needle@, s@, j) by {
            if 0 <= j && j + needle@.len() <= s@.len() {
                assert(j < i);
            }
        }
    }
    false
}

fn bytes_eq(a: &[u8], b: &[u8]) -> (r: bool)
    ensures
        r == (a@ == b@),
{
    if a.len() != b.len() {
        return false;
    }
    let mut i: usize = 0;
    while i < a.len()
        invariant
            a@.len() == b@.len(),
            i <= a@.len(),
            forall|j: int| 0 <= j < i ==> a@[j] == b@[j],
        decreases a@.len() - i,
    {
        if a[i] != b[i] {
            return false;
        }
        i = i + 1;
    }
    assert(a@ =~= b@);
    true
}

/// The payload of a line, when it is a `data:` line worth parsing for usage.
pub fn sse_usage_payload(line: &[u8]) -> (r: Option<Vec<u8>>)
    ensures
        match r {
            Some(v) => usage_payload(line@) == Some(v@),
            None => usage_payload(line@) is None,
        },
{
    let mut end = line.len();
    if end > 0 && line[end - 1] == 13 {
        end = end - 1;
    }
    let ghost l = strip_cr(line@);
    assert(l =~= line@.subrange(0, end as int));
    if end < 5 || line[0] != 100 || line[1] != 97 || line[2] != 116 || line[3] != 97 || line[4] != 58 {
        proof {
            if end >= 5 {
                assert(l.subrange(0, 5)[0] == line@[0]);
                assert(l.subrange(0, 5)[1] == line@[1]);
                assert(l.subrange(0, 5)[2] == line@[2]);
                assert(l.subrange(0, 5)[3] == line@[3]);
                assert(l.subrange(0, 5)[4] == line@[4]);
            }
        }
        return None;
    }
    assert(l.subrange(0, 5) =~= data_prefix());
    let mut rest: Vec<u8> = Vec::new();
    let mut k: usize = 5;
    while k < end
        invariant
            5 <= k <= end,
            end <= line@.len(),
            rest@ == line@.subrange(5, k as int),
        decreases end - k,
    {
        rest.push(line[k]);
        k = k + 1;
        assert(rest@ =~= line@.subrange(5, k as int));
    }
    assert(rest@ =~= l.subrange(5, l.len() as int));
    let d = trim_ws_exec(rest.as_slice());
    let done: [u8; 6] = [91, 68, 79, 78, 69, 93];
    let needle: [u8; 7] = [34, 117, 115, 97, 103, 101, 34];
    assert(done@ =~= done_marker());
    assert(needle@ =~= usage_needle());
    if bytes_eq(d.as_slice(), done.as_slice()) {
        return None;
    }
    if !contains_bytes(d.as_slice(), needle.as_slice()) {
        return None;
    }
    Some(d)
}

/// The usage of the last line that reports one, if any.
pub open spec fn last_usage(lines: Seq<Seq<u8>>) -> Option<UsageTokens>
    decreases lines.len(),
{
    if lines.len() == 0 {
        None
    } else {
        let here = match usage_payload(lines.last()) {
            Some(d) => usage_of_json(d),
            None => None,
        };
        match here {
            Some(u) => Some(u),
            None => last_usage(lines.drop_last()),
        }
    }
}

/// Feeds a chunk of an event stream and returns the usage reported by the
/// last complete `data:` line of the chunk that carries one.
pub fn parse_sse_usage(buf: &mut LineBuffer, chunk: &[u8]) -> (r: Option<UsageTokens>)
    ensures
        final(buf).pending() == split_from(old(buf).pending(), chunk@).1,
        r == last_usage(split_from(old(buf).pending(), chunk@).0),
{
    let lines = buf.feed(chunk);
    let ghost ls = lines@.map_values(|l: Vec<u8>| l@);
    let mut found: Option<UsageTokens> = None;
    let mut i: usize = 0;
    while i < lines.len()
        invariant
            ls == lines@.map_values(|l: Vec<u8>| l@),
            i <= lines@.len(),
            found == last_usage(ls.subrange(0, i as int)),
        decreases lines@.len() - i,
    {
        assert(ls.subrange(0, i + 1).drop_last() =~= ls.subrange(0, i as int));
        assert(ls.subrange(0, i + 1).last() == lines@[i as int]@);
        match sse_usage_payload(lines[i].as_slice()) {
            Some(d) => {
                match usage_from_json_bytes(d.as_slice()) {
                    Some(u) => {
                        found = Some(u);
                    },
                    None => {},
                }
            },
            None => {},
        }
        i = i + 1;
    }
    assert(ls.subrange(0, i as int) =~= ls);
    found
}

/// Later lines win: the usage of two runs of lines is the second run's, if
/// it reports one.
pub proof fn lemma_last_usage_concat(a: Seq<Seq<u8>>, b: Seq<Seq<u8>>)
    ensures
        last_usage(a + b) == match last_usage(b) {
            Some(u) => Some(u),
            None => last_usage(a),
        },
    decreases b.len(),
{
    if b.len() == 0 {
        assert(a + b =~= a);
    } else {
        assert((a + b).drop_last() =~= a + b.drop_last());
        assert((a + b).last() == b.last());
        lemma_last_usage_concat(a, b.drop_last());
    }
}

/// Watches a response body as it is forwarded and finds the usage it
/// reports: the last `usage` of an event stream, or the `usage` of a JSON
/// body of at most 32 MiB; gzip bodies are inflated first.
pub struct UsageTee {
    want_sse: bool,
    want_json: bool,
    decoder: Option<GzipDecoder>,
    abandoned: bool,
    lines: LineBuffer,
    json: BodyBuffer,
    overflow: bool,
    found: Option<UsageTokens>,
    seen: Ghost<Seq<u8>>,
}

impl UsageTee {
    pub closed spec fn sse(&self) -> bool {
        self.want_sse
    }

    pub closed spec fn json_mode(&self) -> bool {
        self.want_json
    }

    /// The (inflated) bytes handed to the extractor so far.
    pub closed spec fn decoded(&self) -> Seq<u8> {
        self.seen@
    }

    /// A gzip body failed to inflate; parsing stopped.
    pub closed spec fn abandoned_spec(&self) -> bool {
        self.abandoned
    }

    /// A JSON body grew past the parse limit.
    pub closed spec fn overflowed(&self) -> bool {
        self.overflow
    }

    pub closed spec fn gzip(&self) -> bool {
        self.decoder is Some
    }

    pub closed spec fn wf(&self) -> bool {
        &&& self.want_sse ==> self.lines.pending() == split_from(Seq::empty(), self.seen@).1
        &&& self.want_sse ==> self.found == last_usage(split_from(Seq::empty(), self.seen@).0)
        &&& !self.want_sse ==> self.found is None
        &&& self.json.limit_spec() == MAX_PARSE_BYTES
        &&& !self.overflow ==> self.json.content() == self.seen@
        &&& (!self.abandoned ==> match self.decoder {
            Some(d) => d.inflated() == self.seen@ && !d.failed_spec(),
            None => true,
        })
    }

    pub fn new(stream_request: bool, content_type: &str, gzip: bool) -> (r: UsageTee)
        ensures
            r.wf(),
            r.decoded() == Seq::<u8>::empty(),
            r.gzip() == gzip,
            !r.abandoned_spec(),
            !r.overflowed(),
            r.sse() == (stream_request && crate::text::is_prefix("text/event-stream"@, content_type@)),
            r.json_mode() == (!stream_request || (crate::text::is_prefix("application/json"@, content_type@) && !r.sse())),
    {
        let (want_sse, want_json) = usage_modes(stream_request, content_type);
        let decoder = if gzip { Some(GzipDecoder::new()) } else { None };
        let r = UsageTee {
            want_sse,
            want_json,
            decoder,
            abandoned: false,
            lines: LineBuffer::new(),
            json: BodyBuffer::new(MAX_PARSE_BYTES),
            overflow: false,
            found: None,
            seen: Ghost(Seq::empty()),
        };
        proof {
            reveal_with_fuel(split_from, 1);
            reveal_with_fuel(last_usage, 1);
        }
        r
    }

    /// Looks at one chunk of the body.
    pub fn feed(&mut self, chunk: &[u8])
        requires
            old(self).wf(),
        ensures
            final(self).wf(),
            final(self).sse() == old(self).sse(),
            final(self).json_mode() == old(self).json_mode(),
            final(self).gzip() == old(self).gzip(),
            old(self).abandoned_spec() ==> final(self).abandoned_spec(),
            old(self).overflowed() ==> final(self).overflowed(),
            !old(self).gzip() && !old(self).abandoned_spec() && (old(self).sse() || old(self).json_mode())
                ==> final(self).decoded() == old(self).decoded() + chunk@,
    {
        if self.abandoned || !(self.want_sse || self.want_json) {
            return;
        }
        let bytes: Vec<u8> = match &mut self.decoder {
            Some(d) => match d.decompress_chunk(chunk) {
                Ok(out) => out,
                Err(()) => {
                    self.abandoned = true;
                    return;
                },
            },
            None => copy_bytes(chunk),
        };
        let ghost before = self.seen@;
        proof {
            lemma_split_concat(Seq::empty(), before, bytes@);
            lemma_last_usage_concat(split_from(Seq::empty(), before).0, split_from(split_from(Seq::empty(), before).1, bytes@).0);
        }
        if self.want_sse {
            match parse_sse_usage(&mut self.lines, bytes.as_slice()) {
                Some(u) => {
                    self.found = Some(u);
                },
                None => {},
            }
        }
        if !self.overflow {
            if !self.json.push(bytes.as_slice()) {
                self.overflow = true;
            }
        }
        self.seen = Ghost(before + bytes@);
    }

    /// The usage found once the body has ended: for an event stream, that of
    /// the last complete line reporting one; for a JSON body, that of the
    /// whole body unless it overflowed or failed to inflate.
    pub fn finish(self) -> (r: Option<UsageTokens>)
        requires
            self.wf(),
        ensures
            self.sse() ==> r == last_usage(split_from(Seq::empty(), self.decoded()).0),
            !self.sse() && self.json_mode() && !self.overflowed() && !self.abandoned_spec() ==> r == usage_of_json(self.decoded()),
            !self.sse() && (!self.json_mode() || self.overflowed() || self.abandoned_spec()) ==> r is None,
    {
        if self.want_sse {
            return self.found;
        }
        if self.want_json && !self.overflow && !self.abandoned {
            let body = self.json.into_bytes();
            return usage_from_json_bytes(body.as_slice());
        }
        None
    }
}

fn copy_bytes(b: &[u8]) -> (r: Vec<u8>)
    ensures
        r@ == b@,
{
    let mut out: Vec<u8> = Vec::new();
    let mut i: usize = 0;
    while i < b.len()
        invariant
            i <= b@.len(),
            out@ == b@.subrange(0, i as int),
        decreases b@.len() - i,
    {
        out.push(b[i]);
        i = i + 1;
        assert(out@ =~= b@.subrange(0, i as int));
    }
    assert(out@ =~= b@);
    out
}

} // verus!
