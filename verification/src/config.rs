//! The server's configuration.
use std::collections::HashMap;
use vstd::prelude::*;

verus! {

/// The whole configuration: the server and its routes.
#[derive(Clone, Debug)]
pub struct Config {
    pub server: ServerConfig,
    pub routes: Vec<RouteConfig>,
}

/// Where the server listens and how it answers.
#[derive(Clone, Debug)]
pub struct ServerConfig {
    pub host: String,
    pub ports: Vec<u16>,
    pub client_max_body_size: usize,
    pub error_pages: HashMap<u16, String>,
}

/// One route: the path prefix it serves and how.
#[derive(Clone, Debug)]
pub struct RouteConfig {
    pub path: String,
    pub root: Option<String>,
    pub methods: Option<Vec<String>>,
    pub default_file: Option<String>,
    pub directory_listing: bool,
    pub cgi_extensions: Option<Vec<String>>,
    pub redirect: Option<String>,
}

fn clone_opt_string(s: &Option<String>) -> (r: Option<String>)
    ensures
        r == *s,
{
    match s {
        Some(x) => Some(x.clone()),
        None => None,
    }
}

fn clone_strings(v: &Vec<String>) -> (r: Vec<String>)
    ensures
        r@ == v@,
{
    let mut out: Vec<String> = Vec::new();
    let n = v.len();
    let mut i: usize = 0;
    while i < n
        invariant
            n == v.len(),
            i <= n,
            out@ == v@.take(i as int),
        decreases n - i,
    {
        out.push(v[i].clone());
        assert(v@.take(i + 1) == v@.take(i as int).push(v@[i as int]));
        i = i + 1;
    }
    assert(v@.take(n as int) == v@);
    out
}

fn clone_opt_strings(v: &Option<Vec<String>>) -> (r: Option<Vec<String>>)
    ensures
        match (r, *v) {
            (Some(a), Some(b)) => a@ == b@,
            (None, None) => true,
            _ => false,
        },
{
    match v {
        Some(x) => Some(clone_strings(x)),
        None => None,
    }
}

/// Whether two routes hold the same values.
pub open spec fn same_route(a: RouteConfig, b: RouteConfig) -> bool {
    &&& a.path == b.path
    &&& a.root == b.root
    &&& match (a.methods, b.methods) {
        (Some(x), Some(y)) => x@ == y@,
        (None, None) => true,
        _ => false,
    }
    &&& a.default_file == b.default_file
    &&& a.directory_listing == b.directory_listing
    &&& match (a.cgi_extensions, b.cgi_extensions) {
        (Some(x), Some(y)) => x@ == y@,
        (None, None) => true,
        _ => false,
    }
    &&& a.redirect == b.redirect
}

/// Whether two configurations hold the same values.
pub open spec fn same_config(a: Config, b: Config) -> bool {
    &&& a.server.host == b.server.host
    &&& a.server.ports@ == b.server.ports@
    &&& a.server.client_max_body_size == b.server.client_max_body_size
    &&& a.server.error_pages@ == b.server.error_pages@
    &&& a.routes@.len() == b.routes@.len()
    &&& forall|i: int| 0 <= i < a.routes@.len() ==> same_route(#[trigger] a.routes@[i], b.routes@[i])
}

impl RouteConfig {
    /// A copy of this route.
    pub fn duplicate(&self) -> (r: RouteConfig)
        ensures
            same_route(r, *self),
    {
        RouteConfig {
            path: self.path.clone(),
            root: clone_opt_string(&self.root),
            methods: clone_opt_strings(&self.methods),
            default_file: clone_opt_string(&self.default_file),
            directory_listing: self.directory_listing,
            cgi_extensions: clone_opt_strings(&self.cgi_extensions),
            redirect: clone_opt_string(&self.redirect),
        }
    }
}

impl Config {
    /// A copy of this configuration.
    pub fn duplicate(&self) -> (r: Config)
        ensures
            same_config(r, *self),
    {
        let mut routes: Vec<RouteConfig> = Vec::new();
        let n = self.routes.len();
        let mut i: usize = 0;
        while i < n
            invariant
                n == self.routes.len(),
                i <= n,
                routes@.len() == i,
                forall|j: int| 0 <= j < i ==> same_route(#[trigger] routes@[j], self.routes@[j]),
            decreases n - i,
        {
            routes.push(self.routes[i].duplicate());
            i = i + 1;
        }
        let mut ports: Vec<u16> = Vec::new();
        let m = self.server.ports.len();
        let mut k: usize = 0;
        while k < m
            invariant
                m == self.server.ports.len(),
                k <= m,
                ports@ == self.server.ports@.take(k as int),
            decreases m - k,
        {
            ports.push(self.server.ports[k]);
            assert(self.server.ports@.take(k + 1) == self.server.ports@.take(k as int).push(
                self.server.ports@[k as int],
            ));
            k = k + 1;
        }
        assert(self.server.ports@.take(m as int) == self.server.ports@);
        Config {
            server: ServerConfig {
                host: self.server.host.clone(),
                ports,
                client_max_body_size: self.server.client_max_body_size,
                error_pages: self.server.error_pages.clone(),
            },
            routes,
        }
    }
}

} // verus!
