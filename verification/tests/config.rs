use files_reader_mcp::config::{Config, IpAddr, ListenAddr, RootConfig};
use files_reader_mcp::error::Error;

fn config(path: &str) -> Config {
    Config {
        listen: ListenAddr { ip: IpAddr::V4([127, 0, 0, 1]), port: 3210 },
        token_env: None,
        roots: vec![RootConfig { name: "projects".into(), path: path.into() }],
    }
}

#[test]
fn config_rejects_public_bind_and_duplicate_roots() {
    let mut c = config("/tmp/root");
    c.listen = ListenAddr { ip: IpAddr::V4([0, 0, 0, 0]), port: 3210 };
    assert!(c.validate().is_err());
    c.listen = ListenAddr { ip: IpAddr::V4([127, 0, 0, 1]), port: 3210 };
    c.roots.push(RootConfig { name: "projects".into(), path: "/tmp/root".into() });
    assert!(c.validate().is_err());
}

#[test]
fn config_errors_name_the_fault() {
    assert_eq!(config("/srv").validate(), Ok(()));
    let mut c = config("/srv");
    c.listen.ip = IpAddr::V4([10, 0, 0, 1]);
    assert_eq!(c.validate(), Err(Error::ListenNotLoopback));
    c.listen.ip = IpAddr::V6([0, 0, 0, 0, 0, 0, 0, 1]);
    assert_eq!(c.validate(), Ok(()));
    c.listen.ip = IpAddr::V6([0, 0, 0, 0, 0, 0, 0, 2]);
    assert_eq!(c.validate(), Err(Error::ListenNotLoopback));
    let mut c = config("/srv");
    c.roots.clear();
    assert_eq!(c.validate(), Err(Error::RootsEmpty));
    assert_eq!(config("relative").validate(), Err(Error::RootMustBeAbsolute));
    let mut c = config("/srv");
    c.roots[0].name = "bad name".into();
    assert_eq!(c.validate(), Err(Error::InvalidRootName));
    c.roots[0].name = "x".repeat(65);
    assert_eq!(c.validate(), Err(Error::InvalidRootName));
    c.roots[0].name = "ok_name-2".into();
    c.roots.push(RootConfig { name: "ok_name-2".into(), path: "/a".into() });
    assert_eq!(c.validate(), Err(Error::DuplicateRootName));
}
