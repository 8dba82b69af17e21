//! The parts of an OpenAPI document that the mock server reads: each path with
//! the delay of its GET operation, and the default port of its server.

use vstd::prelude::*;

use crate::text::{decimal_u16, entry_path, normalize_entry_path, parse_port};

verus! {

/// A GET operation; `delay_ms` is its `x-delay-ms` extension when that is an
/// integer, and `None` when it is absent or not an integer.
#[derive(Debug, Clone)]
pub struct Operation {
    pub delay_ms: Option<i64>,
}

/// One entry of the document's `paths`.
#[derive(Debug, Clone)]
pub struct PathItem {
    pub path: String,
    pub get: Option<Operation>,
}

/// One entry of the document's `servers`; `port_default` is the default value
/// of its `port` variable, if it has one.
#[derive(Debug, Clone)]
pub struct Server {
    pub port_default: Option<String>,
}

/// An OpenAPI document, with its paths in document order.
#[derive(Debug, Clone)]
pub struct ApiSpec {
    pub paths: Option<Vec<PathItem>>,
    pub servers: Vec<Server>,
}

/// A mocked route as read from the document: its path, with no leading or
/// trailing `/`, and its delay.
#[derive(Debug, Clone)]
pub struct ServiceConfig {
    pub path: String,
    pub delay: u64,
}

/// The delay an operation asks for; a missing, non-integer or negative value
/// means no delay.
pub open spec fn delay_of(delay_ms: Option<i64>) -> u64 {
    match delay_ms {
        Some(v) => if v >= 0 {
            v as u64
        } else {
            0
        },
        None => 0,
    }
}

/// Every path of the document has a GET operation.
pub open spec fn all_paths_have_get(paths: Seq<PathItem>) -> bool {
    forall|i: int| 0 <= i < paths.len() ==> (#[trigger] paths[i]).get is Some
}

/// The default port of a document: the default of the `port` variable of its
/// only server, and 0 ("no usable port") when it has no server, more than one,
/// or a server without a `port` variable.
pub open spec fn default_port_of(servers: Seq<Server>) -> u16 {
    if servers.len() != 1 {
        0
    } else {
        match servers[0].port_default {
            Some(text) => match decimal_u16(text@) {
                Some(p) => p,
                None => 0,
            },
            None => 0,
        }
    }
}

/// The default port is present and is not a port number.
pub open spec fn has_malformed_port(servers: Seq<Server>) -> bool {
    servers.len() == 1 && match servers[0].port_default {
        Some(text) => decimal_u16(text@) is None,
        None => false,
    }
}

/// Whether every path of the document has a GET operation.
pub fn every_path_has_get(api_spec: &ApiSpec) -> (r: bool)
    ensures
        api_spec.paths matches Some(ps) ==> r == all_paths_have_get(ps@),
        api_spec.paths is None ==> r,
{
    match &api_spec.paths {
        None => true,
        Some(ps) => {
            let mut i: usize = 0;
            while i < ps.len()
                invariant
                    0 <= i <= ps@.len(),
                    api_spec.paths == Some(*ps),
                    forall|j: int| 0 <= j < i ==> (#[trigger] ps@[j]).get is Some,
                decreases ps@.len() - i,
            {
                if let None = ps[i].get {
                    assert(!all_paths_have_get(ps@));
                    return false;
                }
                i = i + 1;
            }
            true
        },
    }
}

/// The routes of the document, one per path in document order, each with its
/// path stripped of leading and trailing slashes and the delay of its GET operation; `Err(0)` when the
/// document has no `paths`.
pub fn get_paths(api_spec: &ApiSpec) -> (r: Result<Vec<ServiceConfig>, u64>)
    requires
        api_spec.paths matches Some(ps) ==> all_paths_have_get(ps@),
    ensures
        api_spec.paths is None ==> r == Err::<Vec<ServiceConfig>, u64>(0),
        api_spec.paths matches Some(ps) ==> r matches Ok(v) && v@.len() == ps@.len() && (
        forall|i: int|
            0 <= i < ps@.len() ==> {
                &&& (#[trigger] v@[i]).path@ == entry_path(ps@[i].path@)
                &&& v@[i].path@.len() > 0 ==> v@[i].path@[0] != '/' && v@[i].path@.last() != '/'
                &&& v@[i].delay == delay_of(ps@[i].get->Some_0.delay_ms)
            }),
{
    match &api_spec.paths {
        None => Err(0),
        Some(ps) => {
            let mut out: Vec<ServiceConfig> = Vec::new();
            let mut i: usize = 0;
            while i < ps.len()
                invariant
                    0 <= i <= ps@.len(),
                    api_spec.paths == Some(*ps),
                    all_paths_have_get(ps@),
                    out@.len() == i,
                    forall|j: int|
                        0 <= j < i ==> {
                            &&& (#[trigger] out@[j]).path@ == entry_path(ps@[j].path@)
                            &&& out@[j].path@.len() > 0 ==> out@[j].path@[0] != '/'
                                && out@[j].path@.last() != '/'
                            &&& out@[j].delay == delay_of(ps@[j].get->Some_0.delay_ms)
                        },
                decreases ps@.len() - i,
            {
                let item = &ps[i];
                assert(ps@[i as int].get is Some);
                let delay: u64 = match &item.get {
                    Some(op) => match op.delay_ms {
                        Some(v) => if v >= 0 {
                            v as u64
                        } else {
                            0
                        },
                        None => 0,
                    },
                    None => 0,
                };
                out.push(ServiceConfig { path: normalize_entry_path(item.path.as_str()), delay });
                i = i + 1;
            }
            Ok(out)
        },
    }
}

/// The port to listen on by default; 0 means the document names no usable
/// port (no server, several servers, or no `port` variable).
pub fn get_default_port(api_spec: &ApiSpec) -> (r: u16)
    requires
        !has_malformed_port(api_spec.servers@),
    ensures
        r == default_port_of(api_spec.servers@),
        api_spec.servers@.len() == 0 ==> r == 0,
        api_spec.servers@.len() > 1 ==> r == 0,
{
    if api_spec.servers.len() != 1 {
        return 0;
    }
    match &api_spec.servers[0].port_default {
        Some(text) => match parse_port(text.as_str()) {
            Some(p) => p,
            None => 0,
        },
        None => 0,
    }
}

} // verus!
