use crate::error::Error;
use vstd::utf8::encode_utf8;
use vstd::prelude::*;

verus! {

/// An IP address as its octets (v4) or its sixteen-bit groups (v6).
#[derive(Clone, Copy, Debug, PartialEq, Eq)]
pub enum IpAddr {
    V4([u8; 4]),
    V6([u16; 8]),
}

/// The socket address the server listens on.
#[derive(Clone, Copy, Debug, PartialEq, Eq)]
pub struct ListenAddr {
    pub ip: IpAddr,
    pub port: u16,
}

/// One named directory tree that the server may read.
#[derive(Clone, Debug)]
pub struct RootConfig {
    pub name: String,
    pub path: String,
}

/// The server's configuration.
#[derive(Clone, Debug)]
pub struct Config {
    pub listen: ListenAddr,
    pub token_env: Option<String>,
    pub roots: Vec<RootConfig>,
}

/// `127.0.0.0/8` for v4, `::1` for v6.
pub open spec fn is_loopback(ip: IpAddr) -> bool {
    match ip {
        IpAddr::V4(o) => o@[0] == 127,
        IpAddr::V6(g) => forall|k: int| 0 <= k < 8 ==> #[trigger] g@[k] == (if k == 7 {
            1u16
        } else {
            0u16
        }),
    }
}

/// An ASCII letter, digit, `_` or `-`.
pub open spec fn name_byte(c: u8) -> bool {
    (48 <= c <= 57) || (65 <= c <= 90) || (97 <= c <= 122) || c == 95 || c == 45
}

/// One to sixty-four letters, digits, `_` or `-`.
pub open spec fn valid_root_name(n: Seq<u8>) -> bool {
    0 < n.len() <= 64 && forall|i: int| 0 <= i < n.len() ==> #[trigger] name_byte(n[i])
}

/// What is wrong with root `k`, given the roots before it.
pub open spec fn root_fault(roots: Seq<(Seq<u8>, Seq<u8>)>, k: int) -> Option<Error> {
    if !valid_root_name(roots[k].0) {
        Some(Error::InvalidRootName)
    } else if exists|j: int| 0 <= j < k && #[trigger] roots[j].0 == roots[k].0 {
        Some(Error::DuplicateRootName)
    } else if !(roots[k].1.len() > 0 && roots[k].1[0] == 47) {
        Some(Error::RootMustBeAbsolute)
    } else {
        None
    }
}

/// The first fault among the roots from `k` on.
pub open spec fn roots_verdict(roots: Seq<(Seq<u8>, Seq<u8>)>, k: int) -> Result<(), Error>
    decreases roots.len() - k,
{
    if k < 0 || k >= roots.len() {
        Ok(())
    } else {
        match root_fault(roots, k) {
            Some(e) => Err(e),
            None => roots_verdict(roots, k + 1),
        }
    }
}

/// What `validate` answers for a listen address and the roots' names and paths.
pub open spec fn config_verdict(ip: IpAddr, roots: Seq<(Seq<u8>, Seq<u8>)>) -> Result<(), Error> {
    if !is_loopback(ip) {
        Err(Error::ListenNotLoopback)
    } else if roots.len() == 0 {
        Err(Error::RootsEmpty)
    } else {
        roots_verdict(roots, 0)
    }
}

/// The roots' names and paths as bytes.
pub open spec fn roots_view(r: Seq<RootConfig>) -> Seq<(Seq<u8>, Seq<u8>)> {
    r.map_values(|c: RootConfig| (encode_utf8(c.name@), encode_utf8(c.path@)))
}

fn bytes_eq(a: &[u8], b: &[u8]) -> (res: bool)
    ensures
        res == (a@ == b@),
{
    if a.len() != b.len() {
        return false;
    }
    let mut i: usize = 0;
    while i < a.len()
        invariant
            a@.len() == b@.len(),
            i <= a@.len(),
            forall|j: int| 0 <= j < i ==> a@[j] == b@[j],
        decreases a@.len() - i,
    {
        if a[i] != b[i] {
            return false;
        }
        i = i + 1;
    }
    assert(a@ =~= b@);
    true
}

fn root_name_ok(n: &[u8]) -> (res: bool)
    ensures
        res == valid_root_name(n@),
{
    if n.len() == 0 || n.len() > 64 {
        return false;
    }
    let mut i: usize = 0;
    while i < n.len()
        invariant
            i <= n@.len(),
            forall|j: int| 0 <= j < i ==> #[trigger] name_byte(n@[j]),
        decreases n@.len() - i,
    {
        let c = n[i];
        if !((48 <= c && c <= 57) || (65 <= c && c <= 90) || (97 <= c && c <= 122) || c == 95 || c
            == 45) {
            assert(!name_byte(n@[i as int]));
            return false;
        }
        i = i + 1;
    }
    true
}

impl Config {
    /// Accepts a configuration that listens on loopback only and names at
    /// least one root, each with a valid name of its own and an absolute path.
    pub fn validate(&self) -> (res: Result<(), Error>)
        ensures
            res == config_verdict(self.listen.ip, roots_view(self.roots@)),
    {
        let loopback = match self.listen.ip {
            IpAddr::V4(o) => o[0] == 127,
            IpAddr::V6(g) => {
                let mut ok = true;
                let mut k: usize = 0;
                while k < 8
                    invariant
                        k <= 8,
                        ok == forall|j: int| 0 <= j < k ==> #[trigger] g@[j] == (if j == 7 {
                            1u16
                        } else {
                            0u16
                        }),
                    decreases 8 - k,
                {
                    let want: u16 = if k == 7 {
                        1
                    } else {
                        0
                    };
                    if g[k] != want {
                        ok = false;
                    }
                    k = k + 1;
                }
                ok
            },
        };
        if !loopback {
            return Err(Error::ListenNotLoopback);
        }
        if self.roots.len() == 0 {
            return Err(Error::RootsEmpty);
        }
        let ghost rv = roots_view(self.roots@);
        let mut k: usize = 0;
        while k < self.roots.len()
            invariant
                k <= self.roots@.len(),
                rv == roots_view(self.roots@),
                rv.len() == self.roots@.len(),
                roots_verdict(rv, 0) == roots_verdict(rv, k as int),
                config_verdict(self.listen.ip, rv) == roots_verdict(rv, 0),
            decreases self.roots@.len() - k,
        {
            let root = &self.roots[k];
            let name = root.name.as_str().as_bytes();
            assert(name@ == rv[k as int].0);
            if !root_name_ok(name) {
                return Err(Error::InvalidRootName);
            }
            let mut j: usize = 0;
            while j < k
                invariant
                    j <= k < self.roots@.len(),
                    rv == roots_view(self.roots@),
                    rv.len() == self.roots@.len(),
                    name@ == rv[k as int].0,
                    valid_root_name(rv[k as int].0),
                    roots_verdict(rv, 0) == roots_verdict(rv, k as int),
                    config_verdict(self.listen.ip, rv) == roots_verdict(rv, 0),
                    forall|i: int| 0 <= i < j ==> #[trigger] rv[i].0 != rv[k as int].0,
                decreases k - j,
            {
                let other = self.roots[j].name.as_str().as_bytes();
                assert(other@ == rv[j as int].0);
                if bytes_eq(other, name) {
                    assert(rv[j as int].0 == rv[k as int].0);
                    assert(root_fault(rv, k as int) == Some(Error::DuplicateRootName));
                    return Err(Error::DuplicateRootName);
                }
                j = j + 1;
            }
            let path = root.path.as_str().as_bytes();
            assert(path@ == rv[k as int].1);
            if !(path.len() > 0 && path[0] == 47) {
                return Err(Error::RootMustBeAbsolute);
            }
            k = k + 1;
        }
        Ok(())
    }
}

} // verus!
