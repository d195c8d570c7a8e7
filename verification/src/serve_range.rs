//! The HTTP range protocol: parsing the `Range` header against a known
//! total length, and assembling the response plan (status, headers,
//! effective range) for a stream provider.

use vstd::prelude::*;
use vstd::string::StrSliceExecFns;
use crate::stream_range::Range;

verus! {

/// What a `Range` header value means, against the unit `bytes=`.
pub enum ParseOutcome {
    /// The unit is not `bytes=`.
    UnitErr,
    /// A bound is not an unsigned decimal number.
    NumberErr,
    /// `bytes=` is not followed by any recognizable range form.
    SyntaxErr,
    /// Legal but unusable (multiple ranges, or out of bounds): the header
    /// is ignored and the full entity is served.
    Ignored,
    /// One usable range.
    Parsed(Range),
}

pub open spec fn is_ws(c: char) -> bool {
    c == ' ' || c == '\t'
}

pub open spec fn trim_front(s: Seq<char>) -> Seq<char>
    decreases s.len(),
{
    if s.len() > 0 && is_ws(s[0]) {
        trim_front(s.drop_first())
    } else {
        s
    }
}

pub open spec fn trim_back(s: Seq<char>) -> Seq<char>
    decreases s.len(),
{
    if s.len() > 0 && is_ws(s.last()) {
        trim_back(s.drop_last())
    } else {
        s
    }
}

/// The string with ASCII blanks and tabs removed from both ends.
pub open spec fn trim_spec(s: Seq<char>) -> Seq<char> {
    trim_back(trim_front(s))
}

pub open spec fn is_digit(c: char) -> bool {
    48 <= c as u32 <= 57
}

pub open spec fn all_digits(s: Seq<char>) -> bool {
    forall|i: int| 0 <= i < s.len() ==> is_digit(#[trigger] s[i])
}

/// The number the decimal digits spell.
pub open spec fn digits_val(s: Seq<char>) -> nat
    decreases s.len(),
{
    if s.len() == 0 {
        0
    } else {
        digits_val(s.drop_last()) * 10 + (((s.last() as u32) as int - 48) as nat)
    }
}

/// A non-empty all-decimal string whose value fits in 64 bits.
pub open spec fn parse_u64_spec(s: Seq<char>) -> Option<u64> {
    if s.len() > 0 && all_digits(s) && digits_val(s) <= u64::MAX as nat {
        Option::Some(digits_val(s) as u64)
    } else {
        Option::None
    }
}

/// Index of the first occurrence of `c`, or -1.
pub open spec fn find_char(t: Seq<char>, c: char) -> int
    decreases t.len(),
{
    if t.len() == 0 {
        -1
    } else if t[0] == c {
        0
    } else {
        let r = find_char(t.drop_first(), c);
        if r < 0 {
            -1
        } else {
            r + 1
        }
    }
}

/// The header value begins with the unit `bytes=`.
pub open spec fn unit_ok(s: Seq<char>) -> bool {
    &&& s.len() >= 6
    &&& s[0] == 'b'
    &&& s[1] == 'y'
    &&& s[2] == 't'
    &&& s[3] == 'e'
    &&& s[4] == 's'
    &&& s[5] == '='
}

/// The meaning of a whole `Range` header value against an entity of
/// `total` bytes: `N-` is `[N, total)`, `-N` is the last `N` bytes, `A-B`
/// is `[A, B+1)`; out-of-bounds forms and multiple ranges are ignored.
pub open spec fn parse_range_spec(s: Seq<char>, total: u64) -> ParseOutcome {
    if !unit_ok(s) {
        ParseOutcome::UnitErr
    } else {
        let t = trim_spec(s.skip(6));
        if find_char(t, ',') >= 0 {
            ParseOutcome::Ignored
        } else if t.len() > 0 && t[0] == '-' {
            match parse_u64_spec(t.skip(1)) {
                Option::None => ParseOutcome::NumberErr,
                Option::Some(n) => if n >= total {
                    ParseOutcome::Ignored
                } else {
                    ParseOutcome::Parsed(Range { start: (total - n) as u64, end: total })
                },
            }
        } else if t.len() > 0 && t.last() == '-' {
            match parse_u64_spec(t.take(t.len() as int - 1)) {
                Option::None => ParseOutcome::NumberErr,
                Option::Some(a) => if a >= total {
                    ParseOutcome::Ignored
                } else {
                    ParseOutcome::Parsed(Range { start: a, end: total })
                },
            }
        } else if find_char(t, '-') >= 0 {
            let h = find_char(t, '-');
            match (parse_u64_spec(t.take(h)), parse_u64_spec(t.skip(h + 1))) {
                (Option::Some(a), Option::Some(b)) => if b >= total || a > b {
                    ParseOutcome::Ignored
                } else {
                    ParseOutcome::Parsed(Range { start: a, end: (b + 1) as u64 })
                },
                _ => ParseOutcome::NumberErr,
            }
        } else {
            ParseOutcome::SyntaxErr
        }
    }
}

proof fn lemma_digits_prefix_mono(s: Seq<char>, i: int)
    requires
        0 <= i <= s.len(),
    ensures
        digits_val(s.take(i)) <= digits_val(s),
    decreases s.len(),
{
    if i < s.len() {
        lemma_digits_prefix_mono(s.drop_last(), i);
        assert(s.take(i) =~= s.drop_last().take(i));
    } else {
        assert(s.take(i) =~= s);
    }
}

proof fn lemma_find_char_at(t: Seq<char>, c: char, i: int)
    requires
        0 <= i < t.len(),
        t[i] == c,
        forall|k: int| 0 <= k < i ==> t[k] != c,
    ensures
        find_char(t, c) == i,
    decreases i,
{
    if i > 0 {
        lemma_find_char_at(t.drop_first(), c, i - 1);
    }
}

proof fn lemma_find_char_none(t: Seq<char>, c: char)
    requires
        forall|k: int| 0 <= k < t.len() ==> t[k] != c,
    ensures
        find_char(t, c) == -1,
    decreases t.len(),
{
    if t.len() > 0 {
        lemma_find_char_none(t.drop_first(), c);
    }
}

/// The characters of a string, materialized.
#[verifier::loop_isolation(false)]
fn to_chars(s: &str) -> (v: Vec<char>)
    ensures
        v@ == s@,
{
    let n = s.unicode_len();
    let mut v: Vec<char> = Vec::new();
    let mut i: usize = 0;
    while i < n
        invariant
            i <= n,
            v@ == s@.take(i as int),
        decreases n - i,
    {
        v.push(s.get_char(i));
        i = i + 1;
        proof {
            assert(v@ =~= s@.take(i as int));
        }
    }
    proof {
        assert(s@.take(n as int) =~= s@);
    }
    v
}

/// Bounds of the trimmed middle of `[a, b)`.
#[verifier::loop_isolation(false)]
fn trim_bounds(v: &Vec<char>, a: usize, b: usize) -> (r: (usize, usize))
    requires
        a <= b <= v@.len(),
    ensures
        a <= r.0 <= r.1 <= b,
        v@.subrange(r.0 as int, r.1 as int) == trim_spec(v@.subrange(a as int, b as int)),
{
    let mut lo = a;
    let mut hi = b;
    while lo < hi && (v[lo] == ' ' || v[lo] == '\t')
        invariant
            a <= lo <= hi <= b,
            hi == b,
            trim_front(v@.subrange(lo as int, hi as int)) == trim_front(
                v@.subrange(a as int, b as int),
            ),
        decreases hi - lo,
    {
        proof {
            assert(v@.subrange(lo as int, hi as int).drop_first() =~= v@.subrange(
                lo as int + 1,
                hi as int,
            ));
        }
        lo = lo + 1;
    }
    proof {
        assert(trim_front(v@.subrange(lo as int, hi as int)) == v@.subrange(
            lo as int,
            hi as int,
        ));
    }
    while lo < hi && (v[hi - 1] == ' ' || v[hi - 1] == '\t')
        invariant
            a <= lo <= hi <= b,
            trim_back(v@.subrange(lo as int, hi as int)) == trim_back(
                trim_front(v@.subrange(a as int, b as int)),
            ),
        decreases hi - lo,
    {
        proof {
            assert(v@.subrange(lo as int, hi as int).drop_last() =~= v@.subrange(
                lo as int,
                hi as int - 1,
            ));
        }
        hi = hi - 1;
    }
    proof {
        assert(trim_back(v@.subrange(lo as int, hi as int)) == v@.subrange(
            lo as int,
            hi as int,
        ));
    }
    (lo, hi)
}

/// First occurrence of `c` in `[a, b)`.
#[verifier::loop_isolation(false)]
fn find_in(v: &Vec<char>, a: usize, b: usize, c: char) -> (r: Option<usize>)
    requires
        a <= b <= v@.len(),
    ensures
        match r {
            Option::Some(i) => a <= i < b && find_char(v@.subrange(a as int, b as int), c) == i
                - a,
            Option::None => find_char(v@.subrange(a as int, b as int), c) == -1,
        },
{
    let mut i = a;
    while i < b
        invariant
            a <= i <= b,
            forall|k: int| a <= k < i ==> v@[k] != c,
        decreases b - i,
    {
        if v[i] == c {
            proof {
                lemma_find_char_at(v@.subrange(a as int, b as int), c, i - a);
            }
            return Option::Some(i);
        }
        i = i + 1;
    }
    proof {
        lemma_find_char_none(v@.subrange(a as int, b as int), c);
    }
    Option::None
}

/// Parse the decimal in `[a, b)`.
#[verifier::loop_isolation(false)]
fn parse_u64_chars(v: &Vec<char>, a: usize, b: usize) -> (r: Option<u64>)
    requires
        a <= b <= v@.len(),
    ensures
        r == parse_u64_spec(v@.subrange(a as int, b as int)),
{
    let ghost t = v@.subrange(a as int, b as int);
    if a == b {
        return Option::None;
    }
    let mut val: u64 = 0;
    let mut i = a;
    while i < b
        invariant
            a <= i <= b,
            all_digits(t.take(i - a)),
            val as nat == digits_val(t.take(i - a)),
        decreases b - i,
    {
        let cc = v[i] as u32;
        if cc < 48 || cc > 57 {
            proof {
                assert(t[i - a] == v@[i as int]);
                assert(!is_digit(t[i - a]));
            }
            return Option::None;
        }
        let d = (cc - 48) as u64;
        let next = match val.checked_mul(10) {
            Option::Some(x) => x.checked_add(d),
            Option::None => Option::None,
        };
        proof {
            assert(t.take(i - a + 1).drop_last() =~= t.take(i - a));
            assert(t.take(i - a + 1).last() == t[i - a]);
            assert(t[i - a] == v@[i as int]);
            assert(cc == v@[i as int] as u32);
            assert(is_digit(t[i - a]));
            assert(d as int == (t[i - a] as u32) as int - 48);
            assert(digits_val(t.take(i - a + 1)) == digits_val(t.take(i - a)) * 10 + (((t[i
                - a] as u32) as int - 48) as nat));
            assert forall|k: int| 0 <= k < i - a + 1 implies is_digit(
                #[trigger] t.take(i - a + 1)[k],
            ) by {
                if k < i - a {
                    assert(t.take(i - a + 1)[k] == t.take(i - a)[k]);
                }
            }
        }
        match next {
            Option::Some(x) => {
                val = x;
            },
            Option::None => {
                proof {
                    assert(digits_val(t.take(i - a + 1)) > u64::MAX as nat);
                    lemma_digits_prefix_mono(t, i - a + 1);
                }
                return Option::None;
            },
        }
        i = i + 1;
    }
    proof {
        assert(t.take(b - a) =~= t);
    }
    Option::Some(val)
}

/// Parse an HTTP `Range` header value against a total length.
///
/// `Ok(Some(range))` for a usable range, `Ok(None)` for a legal header
/// that is ignored (multiple ranges, out of bounds), `Err(msg)` when the
/// unit, a number, or the overall shape cannot be parsed.
#[verifier::loop_isolation(false)]
pub fn parse_range(range_val: &str, total_len: u64) -> (r: Result<Option<Range>, &'static str>)
    ensures
        ({
            let o = parse_range_spec(range_val@, total_len);
            &&& (o matches ParseOutcome::Parsed(rg) ==> r == Result::<Option<Range>, &'static str>::Ok(
                Option::Some(rg),
            ))
            &&& (o is Ignored ==> r == Result::<Option<Range>, &'static str>::Ok(Option::None))
            &&& (o is UnitErr ==> r is Err && r->Err_0@ == "invalid range unit"@)
            &&& (o is NumberErr ==> r is Err && r->Err_0@ == "invalid range number"@)
            &&& (o is SyntaxErr ==> r is Err && r->Err_0@ == "invalid range"@)
        }),
        r matches Result::Ok(Option::Some(rg)) ==> rg.wf() && 0 < rg.end <= total_len,
{
    let chars = to_chars(range_val);
    let n = chars.len();
    if n < 6 {
        return Result::Err("invalid range unit");
    }
    if !(chars[0] == 'b' && chars[1] == 'y' && chars[2] == 't' && chars[3] == 'e' && chars[4]
        == 's' && chars[5] == '=') {
        return Result::Err("invalid range unit");
    }
    let (a, b) = trim_bounds(&chars, 6, n);
    let ghost t = trim_spec(range_val@.skip(6));
    proof {
        assert(chars@.subrange(6, n as int) =~= range_val@.skip(6));
        assert(chars@.subrange(a as int, b as int) == t);
    }
    if find_in(&chars, a, b, ',').is_some() {
        return Result::Ok(Option::None);
    }
    if b > a && chars[a] == '-' {
        proof {
            assert(t[0] == '-');
            assert(chars@.subrange(a as int + 1, b as int) =~= t.skip(1));
        }
        match parse_u64_chars(&chars, a + 1, b) {
            Option::None => Result::Err("invalid range number"),
            Option::Some(nv) => {
                if nv >= total_len {
                    Result::Ok(Option::None)
                } else {
                    Result::Ok(Option::Some(Range { start: total_len - nv, end: total_len }))
                }
            },
        }
    } else if b > a && chars[b - 1] == '-' {
        proof {
            assert(t.last() == '-');
            assert(chars@.subrange(a as int, b as int - 1) =~= t.take(t.len() as int - 1));
        }
        match parse_u64_chars(&chars, a, b - 1) {
            Option::None => Result::Err("invalid range number"),
            Option::Some(sv) => {
                if sv >= total_len {
                    Result::Ok(Option::None)
                } else {
                    Result::Ok(Option::Some(Range { start: sv, end: total_len }))
                }
            },
        }
    } else {
        match find_in(&chars, a, b, '-') {
            Option::None => Result::Err("invalid range"),
            Option::Some(h) => {
                proof {
                    let hh = h - a;
                    assert(find_char(t, '-') == hh);
                    assert(chars@.subrange(a as int, h as int) =~= t.take(hh));
                    assert(chars@.subrange(h as int + 1, b as int) =~= t.skip(hh + 1));
                }
                let left = parse_u64_chars(&chars, a, h);
                let right = parse_u64_chars(&chars, h + 1, b);
                match (left, right) {
                    (Option::Some(sv), Option::Some(ev)) => {
                        if ev >= total_len || sv > ev {
                            Result::Ok(Option::None)
                        } else {
                            Result::Ok(Option::Some(Range { start: sv, end: ev + 1 }))
                        }
                    },
                    _ => Result::Err("invalid range number"),
                }
            },
        }
    }
}

} // verus!

use vstd::string::StringExecFns;
use crate::stream_range::{StreamRange, Segment, segments_bytes};

verus! {

/// The `Content-Range` header, as values: `bytes first-last/total`.
#[derive(Clone, Copy, Debug, PartialEq, Eq, Structural)]
pub struct ContentRange {
    pub first: u64,
    pub last: u64,
    pub total: u64,
}

/// Everything an HTTP response needs before its body: the status, the
/// headers' values, and the effective range the body will carry.
pub struct ResponsePlan {
    pub status: u16,
    pub content_type: String,
    pub etag: String,
    pub content_disposition: String,
    pub content_range: Option<ContentRange>,
    pub content_length: u64,
    pub range: Range,
}

/// Character-for-character string equality.
#[verifier::loop_isolation(false)]
pub fn str_eq(a: &str, b: &str) -> (r: bool)
    ensures
        r == (a@ == b@),
{
    let n = a.unicode_len();
    if n != b.unicode_len() {
        return false;
    }
    let mut i: usize = 0;
    while i < n
        invariant
            i <= n,
            n == a@.len() == b@.len(),
            forall|k: int| 0 <= k < i ==> a@[k] == b@[k],
        decreases n - i,
    {
        if a.get_char(i) != b.get_char(i) {
            return false;
        }
        i = i + 1;
    }
    proof {
        assert(a@ =~= b@);
    }
    true
}

/// The range a request is served with: the parsed `Range` header, unless
/// the header is absent, unusable, or disarmed by an `If-Range` mismatch.
pub open spec fn effective_range_spec(
    range_header: Option<Seq<char>>,
    if_range: Option<Seq<char>>,
    etag: Seq<char>,
    total: u64,
) -> Option<Range> {
    match range_header {
        Option::None => Option::None,
        Option::Some(rv) => {
            if (if_range matches Option::Some(x) && x != etag) {
                Option::None
            } else {
                match parse_range_spec(rv, total) {
                    ParseOutcome::Parsed(rg) => Option::Some(rg),
                    _ => Option::None,
                }
            }
        },
    }
}

/// Assemble the response plan for a stream provider: always `Content-Type`,
/// `ETag` and `Content-Disposition: attachment; filename="<name>"`; with a
/// usable range, status 206 with `Content-Range`, else status 200 with the
/// full entity; `Content-Length` is the length of the effective range.
#[verifier::loop_isolation(false)]
pub fn response_plan(
    range_header: Option<&str>,
    if_range: Option<&str>,
    content_type: String,
    etag: String,
    filename: &str,
    total_len: u64,
) -> (p: ResponsePlan)
    ensures
        ({
            let er = effective_range_spec(
                match range_header {
                    Option::Some(s) => Option::Some(s@),
                    Option::None => Option::None,
                },
                match if_range {
                    Option::Some(s) => Option::Some(s@),
                    Option::None => Option::None,
                },
                etag@,
                total_len,
            );
            match er {
                Option::Some(rg) => {
                    &&& p.status == 206
                    &&& p.range == rg
                    &&& p.content_length as nat == rg.spec_len()
                    &&& p.content_range == Option::Some(
                        ContentRange {
                            first: rg.start,
                            last: (rg.end - 1) as u64,
                            total: total_len,
                        },
                    )
                },
                Option::None => {
                    &&& p.status == 200
                    &&& p.range == (Range { start: 0, end: total_len })
                    &&& p.content_length == total_len
                    &&& p.content_range is None
                },
            }
        }),
        p.range.wf() && p.range.end <= total_len,
        p.content_type@ == content_type@,
        p.etag@ == etag@,
        p.content_disposition@ == "attachment; filename=\""@ + filename@ + "\""@,
{
    let range = match range_header {
        Option::None => Option::None,
        Option::Some(rv) => {
            let if_range_ok = match if_range {
                Option::None => true,
                Option::Some(x) => str_eq(x, etag.as_str()),
            };
            if !if_range_ok {
                Option::None
            } else {
                match parse_range(rv, total_len) {
                    Result::Ok(o) => o,
                    Result::Err(_) => Option::None,
                }
            }
        },
    };
    let mut disposition = String::new();
    disposition.append("attachment; filename=\"");
    disposition.append(filename);
    disposition.append("\"");
    match range {
        Option::Some(rg) => ResponsePlan {
            status: 206,
            content_type,
            etag,
            content_disposition: disposition,
            content_range: Option::Some(
                ContentRange { first: rg.start, last: rg.end - 1, total: total_len },
            ),
            content_length: rg.len(),
            range: rg,
        },
        Option::None => ResponsePlan {
            status: 200,
            content_type,
            etag,
            content_disposition: disposition,
            content_range: Option::None,
            content_length: total_len,
            range: Range { start: 0, end: total_len },
        },
    }
}

/// Serve a stream provider: the response plan plus the segment plan of the
/// effective range — the body delivers exactly `content_length` bytes, the
/// slice of the provider's content the plan promises.
pub fn serve(
    provider: &StreamRange,
    range_header: Option<&str>,
    if_range: Option<&str>,
    content_type: String,
    etag: String,
    filename: &str,
) -> (r: (ResponsePlan, Vec<Segment>))
    requires
        provider.wf(),
    ensures
        ({
            let er = effective_range_spec(
                match range_header {
                    Option::Some(s) => Option::Some(s@),
                    Option::None => Option::None,
                },
                match if_range {
                    Option::Some(s) => Option::Some(s@),
                    Option::None => Option::None,
                },
                etag@,
                provider.spec_len() as u64,
            );
            match er {
                Option::Some(rg) => r.0.status == 206 && r.0.range == rg,
                Option::None => r.0.status == 200 && r.0.range == (Range {
                    start: 0,
                    end: provider.spec_len() as u64,
                }),
            }
        }),
        r.0.content_length as nat == r.0.range.spec_len(),
        r.0.content_type@ == content_type@,
        r.0.etag@ == etag@,
        r.0.content_disposition@ == "attachment; filename=\""@ + filename@ + "\""@,
        forall|bodies: Seq<Seq<u8>>|
            provider.wf_bodies(bodies) ==> #[trigger] segments_bytes(r.1@, bodies)
                == provider.content(bodies).subrange(
                r.0.range.start as int,
                r.0.range.end as int,
            ),
        forall|bodies: Seq<Seq<u8>>|
            provider.wf_bodies(bodies) ==> #[trigger] segments_bytes(r.1@, bodies).len()
                == r.0.content_length,
{
    let total_len = provider.len();
    let plan = response_plan(range_header, if_range, content_type, etag, filename, total_len);
    let segs = provider.stream_range(plan.range);
    proof {
        assert forall|bodies: Seq<Seq<u8>>| provider.wf_bodies(bodies) implies #[trigger] segments_bytes(
            segs@,
            bodies,
        ).len() == plan.content_length by {
            provider.lemma_content_len(bodies);
        }
    }
    (plan, segs)
}

} // verus!
