//! Orchestrator decisions: where to send the upstream request, and what to
//! do with what comes back. The I/O itself (the HTTP client, reading the
//! upstream body) happens outside; this module decides.

use vstd::prelude::*;
use vstd::string::StrSliceExecFns;
use vstd::string::StringExecFns;
use crate::Config;
use crate::zip::{Manifest, Layout, LayoutError, buildable, layout_matches, expected_error};

verus! {

/// `p` is an exact leading substring of `s`.
pub open spec fn is_prefix(p: Seq<char>, s: Seq<char>) -> bool {
    p.len() <= s.len() && s.take(p.len() as int) == p
}

/// Whether the path begins with the configured prefix.
#[verifier::loop_isolation(false)]
pub fn starts_with(s: &str, p: &str) -> (r: bool)
    ensures
        r == is_prefix(p@, s@),
{
    let pn = p.unicode_len();
    let sn = s.unicode_len();
    if pn > sn {
        return false;
    }
    let mut i: usize = 0;
    while i < pn
        invariant
            i <= pn,
            pn == p@.len() <= s@.len(),
            forall|k: int| 0 <= k < i ==> s@[k] == p@[k],
        decreases pn - i,
    {
        if s.get_char(i) != p.get_char(i) {
            proof {
                assert(s@.take(pn as int)[i as int] != p@[i as int]);
            }
            return false;
        }
        i = i + 1;
    }
    proof {
        assert(s@.take(pn as int) =~= p@);
    }
    true
}

/// The target of the upstream request: the configured base followed by the
/// incoming path with the configured prefix removed. A non-empty prefix
/// that the path does not carry is a request error.
pub fn upstream_uri(config: &Config, path: &str) -> (r: Result<String, &'static str>)
    ensures
        is_prefix(config.strip_prefix@, path@) ==> r is Ok && r->Ok_0@ == config.upstream@
            + path@.skip(config.strip_prefix@.len() as int),
        !is_prefix(config.strip_prefix@, path@) ==> r is Err && r->Err_0@
            == "Path does not match configured prefix"@,
{
    if !starts_with(path, config.strip_prefix.as_str()) {
        return Result::Err("Path does not match configured prefix");
    }
    let plen = config.strip_prefix.as_str().unicode_len();
    let n = path.unicode_len();
    let rest = path.substring_char(plen, n);
    let mut uri = config.upstream.clone();
    uri.append(rest);
    proof {
        assert(rest@ =~= path@.skip(config.strip_prefix@.len() as int));
    }
    Result::Ok(uri)
}

/// What arrived from upstream, reduced to what the decision needs: the
/// transport failed, the body could not be read, an ordinary response to
/// pass through, or a decoded archive manifest.
pub enum UpstreamEvent {
    ConnectFailed,
    BodyFailed,
    Passthrough,
    Archive(Manifest),
}

/// The gateway's next step: fail with a status and a short body, forward
/// the upstream response verbatim, or stream the planned archive.
pub enum GatewayAction {
    Fail(u16, &'static str),
    ForwardUpstream,
    Stream(Layout),
}

/// Decide the gateway's next step from what upstream produced: transport
/// failures are 503 with the owed body, a manifest is planned into a
/// layout (a manifest the planner refuses is a 502), anything else is
/// passed through.
pub fn dispatch(ev: UpstreamEvent) -> (r: GatewayAction)
    ensures
        match ev {
            UpstreamEvent::ConnectFailed => r matches GatewayAction::Fail(st, m) && st == 503
                && m@ == "Upstream connection failed"@,
            UpstreamEvent::BodyFailed => r matches GatewayAction::Fail(st, m) && st == 503 && m@
                == "Upstream request failed"@,
            UpstreamEvent::Passthrough => r is ForwardUpstream,
            UpstreamEvent::Archive(man) => {
                if buildable(man.members@) {
                    &&& r is Stream
                    &&& r matches GatewayAction::Stream(l) ==> l.wf() && layout_matches(
                        l,
                        man.filename@,
                        man.members@,
                    )
                } else {
                    r matches GatewayAction::Fail(st, m) && st == 502 && m@
                        == "Invalid archive manifest"@
                }
            },
        },
{
    match ev {
        UpstreamEvent::ConnectFailed => GatewayAction::Fail(503, "Upstream connection failed"),
        UpstreamEvent::BodyFailed => GatewayAction::Fail(503, "Upstream request failed"),
        UpstreamEvent::Passthrough => GatewayAction::ForwardUpstream,
        UpstreamEvent::Archive(man) => match Layout::build(man) {
            Result::Ok(l) => GatewayAction::Stream(l),
            Result::Err(_) => GatewayAction::Fail(502, "Invalid archive manifest"),
        },
    }
}

} // verus!
