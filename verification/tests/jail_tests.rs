use path_jail::error::{InvalidPathReason, JailError};
use path_jail::jail::{check_absolute_input, Jail};
use path_jail::walk::{FsEvent, Walk};

fn jail() -> Jail {
    Jail::from_canonical_root(b"/srv/jail").unwrap()
}

/// Drives a walk with a scripted sequence of filesystem answers, the way
/// an embedding would drive it with real lstat/readlink answers.
fn run(jail: &Jail, rel: &[u8], script: Vec<FsEvent>) -> Result<Vec<u8>, JailError> {
    let mut events = script;
    let mut walk: Walk = jail.join_start(rel)?;
    loop {
        match walk.next_probe() {
            None => return Ok(walk.finish()),
            Some(_pending) => {
                assert!(!events.is_empty(), "walk probed more often than scripted");
                walk.feed(events.remove(0))?;
            }
        }
    }
}

#[test]
fn construct_ok() {
    let j = jail();
    assert_eq!(j.root_bytes(), b"/srv/jail".to_vec());
}

#[test]
fn construct_filesystem_root() {
    let j = Jail::from_canonical_root(b"/").unwrap();
    assert_eq!(j.root_bytes(), b"/".to_vec());
}

#[test]
fn construct_rejects_relative() {
    let e = Jail::from_canonical_root(b"srv/jail").unwrap_err();
    assert_eq!(e, JailError::InvalidPath(InvalidPathReason::MustBeAbsolute));
}

#[test]
fn construct_rejects_nul() {
    let e = Jail::from_canonical_root(b"/srv/ja\0il").unwrap_err();
    assert_eq!(e, JailError::InvalidPath(InvalidPathReason::NullByte));
}

#[test]
fn construct_rejects_empty() {
    let e = Jail::from_canonical_root(b"").unwrap_err();
    assert_eq!(e, JailError::InvalidPath(InvalidPathReason::Empty));
}

#[test]
fn construct_rejects_uncanonical() {
    let e = Jail::from_canonical_root(b"/srv/../jail").unwrap_err();
    assert_eq!(e, JailError::InvalidPath(InvalidPathReason::NotCanonical));
}

#[test]
fn join_plain_components() {
    let j = jail();
    let p = run(&j, b"docs/report.txt", vec![FsEvent::Present, FsEvent::Present]).unwrap();
    assert_eq!(p, b"/srv/jail/docs/report.txt".to_vec());
}

#[test]
fn join_probes_in_order() {
    let j = jail();
    let mut w = j.join_start(b"a/b").unwrap();
    assert_eq!(w.next_probe().unwrap(), b"/srv/jail/a".to_vec());
    w.feed(FsEvent::Present).unwrap();
    assert_eq!(w.next_probe().unwrap(), b"/srv/jail/a/b".to_vec());
    w.feed(FsEvent::Present).unwrap();
    assert!(w.next_probe().is_none());
    assert_eq!(w.finish(), b"/srv/jail/a/b".to_vec());
}

#[test]
fn join_missing_tail_is_lexical() {
    let j = jail();
    // Once a component is missing, nothing further is probed.
    let p = run(&j, b"newdir/sub/file.txt", vec![FsEvent::Missing]).unwrap();
    assert_eq!(p, b"/srv/jail/newdir/sub/file.txt".to_vec());
}

#[test]
fn join_normalizes_dot_and_dotdot() {
    let j = jail();
    let p = run(
        &j,
        b"a/./b/../c",
        vec![FsEvent::Present, FsEvent::Present, FsEvent::Present],
    )
    .unwrap();
    assert_eq!(p, b"/srv/jail/a/c".to_vec());
}

#[test]
fn join_collapses_repeated_slashes() {
    let j = jail();
    let p = run(&j, b"a//b/", vec![FsEvent::Present, FsEvent::Present]).unwrap();
    assert_eq!(p, b"/srv/jail/a/b".to_vec());
}

#[test]
fn join_dot_alone_is_root() {
    let j = jail();
    let p = run(&j, b".", vec![]).unwrap();
    assert_eq!(p, b"/srv/jail".to_vec());
}

#[test]
fn join_parent_escape_denied() {
    let j = jail();
    let e = j.join_start(b"../../etc/passwd").unwrap_err();
    assert_eq!(
        e,
        JailError::EscapedRoot {
            attempted: b"/srv".to_vec(),
            root: b"/srv/jail".to_vec(),
        }
    );
}

#[test]
fn join_escape_and_return_still_denied() {
    let j = jail();
    let e = run(&j, b"a/../../jail/x", vec![FsEvent::Present]).unwrap_err();
    assert_eq!(
        e,
        JailError::EscapedRoot {
            attempted: b"/srv".to_vec(),
            root: b"/srv/jail".to_vec(),
        }
    );
}

#[test]
fn join_rejects_absolute_input() {
    let j = jail();
    // Even an absolute path inside the jail is rejected: join takes
    // relative paths only.
    let e = j.join_start(b"/srv/jail/x").unwrap_err();
    assert_eq!(e, JailError::InvalidPath(InvalidPathReason::MustBeRelative));
}

#[test]
fn join_rejects_nul() {
    let j = jail();
    let e = j.join_start(b"a\0b").unwrap_err();
    assert_eq!(e, JailError::InvalidPath(InvalidPathReason::NullByte));
}

#[test]
fn join_rejects_empty() {
    let j = jail();
    let e = j.join_start(b"").unwrap_err();
    assert_eq!(e, JailError::InvalidPath(InvalidPathReason::Empty));
}

#[test]
fn dotdot_at_filesystem_root_stays_there() {
    let j = Jail::from_canonical_root(b"/").unwrap();
    let p = run(&j, b"../x", vec![FsEvent::Missing]).unwrap();
    assert_eq!(p, b"/x".to_vec());
}

#[test]
fn symlink_absolute_outside_denied() {
    let j = jail();
    let e = run(
        &j,
        b"link/x",
        vec![
            FsEvent::Symlink { target: b"/etc".to_vec(), target_exists: true },
            FsEvent::Present,
        ],
    )
    .unwrap_err();
    assert_eq!(
        e,
        JailError::EscapedRoot {
            attempted: b"/etc".to_vec(),
            root: b"/srv/jail".to_vec(),
        }
    );
}

#[test]
fn symlink_relative_escape_denied() {
    let j = jail();
    let e = run(
        &j,
        b"link",
        vec![FsEvent::Symlink { target: b"../../outside".to_vec(), target_exists: true }],
    )
    .unwrap_err();
    assert_eq!(
        e,
        JailError::EscapedRoot {
            attempted: b"/srv".to_vec(),
            root: b"/srv/jail".to_vec(),
        }
    );
}

#[test]
fn symlink_inside_followed() {
    let j = jail();
    let p = run(
        &j,
        b"link/doc",
        vec![
            FsEvent::Symlink { target: b"real".to_vec(), target_exists: true },
            FsEvent::Present,
            FsEvent::Present,
        ],
    )
    .unwrap();
    assert_eq!(p, b"/srv/jail/real/doc".to_vec());
}

#[test]
fn symlink_target_with_nul_rejected() {
    let j = jail();
    let e = run(
        &j,
        b"link",
        vec![FsEvent::Symlink { target: b"re\0al".to_vec(), target_exists: true }],
    )
    .unwrap_err();
    assert_eq!(e, JailError::InvalidPath(InvalidPathReason::NullByte));
}

#[test]
fn dangling_symlink_intermediate_denied() {
    let j = jail();
    let e = run(
        &j,
        b"dead/next",
        vec![FsEvent::Symlink { target: b"t".to_vec(), target_exists: false }],
    )
    .unwrap_err();
    assert_eq!(e, JailError::BrokenSymlink(b"/srv/jail/dead".to_vec()));
}

#[test]
fn dangling_symlink_final_safe_target_kept() {
    let j = jail();
    let p = run(
        &j,
        b"dead",
        vec![FsEvent::Symlink { target: b"t".to_vec(), target_exists: false }],
    )
    .unwrap();
    assert_eq!(p, b"/srv/jail/dead".to_vec());
}

#[test]
fn dangling_symlink_final_escaping_target_denied() {
    let j = jail();
    let e = run(
        &j,
        b"dead",
        vec![FsEvent::Symlink { target: b"../out".to_vec(), target_exists: false }],
    )
    .unwrap_err();
    assert_eq!(e, JailError::BrokenSymlink(b"/srv/jail/dead".to_vec()));
}

#[test]
fn dangling_symlink_final_absolute_outside_denied() {
    let j = jail();
    let e = run(
        &j,
        b"dead",
        vec![FsEvent::Symlink { target: b"/etc/passwd".to_vec(), target_exists: false }],
    )
    .unwrap_err();
    assert_eq!(e, JailError::BrokenSymlink(b"/srv/jail/dead".to_vec()));
}

#[test]
fn symlink_chain_capped() {
    let j = jail();
    let mut walk = j.join_start(b"loop").unwrap();
    let mut denied = None;
    for _ in 0..=40 {
        assert!(walk.next_probe().is_some());
        match walk.feed(FsEvent::Symlink { target: b"loop".to_vec(), target_exists: true }) {
            Ok(()) => continue,
            Err(e) => {
                denied = Some(e);
                break;
            }
        }
    }
    assert_eq!(
        denied.unwrap(),
        JailError::InvalidPath(InvalidPathReason::SymlinkChainTooLong)
    );
}

#[test]
fn contains_root_itself() {
    let j = jail();
    assert_eq!(j.contains_check(b"/srv/jail").unwrap(), b"/srv/jail".to_vec());
}

#[test]
fn relative_of_root_is_empty() {
    let j = jail();
    assert_eq!(j.relative_of(b"/srv/jail").unwrap(), b"".to_vec());
}

#[test]
fn contains_inside_ok() {
    let j = jail();
    assert_eq!(
        j.contains_check(b"/srv/jail/a/b").unwrap(),
        b"/srv/jail/a/b".to_vec()
    );
}

#[test]
fn contains_outside_denied() {
    let j = jail();
    let e = j.contains_check(b"/srv/other").unwrap_err();
    assert_eq!(
        e,
        JailError::EscapedRoot {
            attempted: b"/srv/other".to_vec(),
            root: b"/srv/jail".to_vec(),
        }
    );
}

#[test]
fn contains_sibling_with_shared_byte_prefix_denied() {
    let j = jail();
    // "/srv/jail-evil" shares a byte prefix with the root but no
    // component prefix.
    let e = j.contains_check(b"/srv/jail-evil/a").unwrap_err();
    assert_eq!(
        e,
        JailError::EscapedRoot {
            attempted: b"/srv/jail-evil/a".to_vec(),
            root: b"/srv/jail".to_vec(),
        }
    );
}

#[test]
fn contains_rejects_relative_input() {
    let j = jail();
    let e = j.contains_check(b"srv/jail").unwrap_err();
    assert_eq!(e, JailError::InvalidPath(InvalidPathReason::MustBeAbsolute));
}

#[test]
fn contains_rejects_uncanonical() {
    let j = jail();
    let e = j.contains_check(b"/srv/jail/./x").unwrap_err();
    assert_eq!(e, JailError::InvalidPath(InvalidPathReason::NotCanonical));
}

#[test]
fn contains_rejects_nul() {
    let j = jail();
    let e = j.contains_check(b"/srv/jail/\0").unwrap_err();
    assert_eq!(e, JailError::InvalidPath(InvalidPathReason::NullByte));
}

#[test]
fn relative_strips_root_prefix() {
    let j = jail();
    assert_eq!(j.relative_of(b"/srv/jail/a/b").unwrap(), b"a/b".to_vec());
}

#[test]
fn relative_outside_denied() {
    let j = jail();
    let e = j.relative_of(b"/etc/passwd").unwrap_err();
    assert_eq!(
        e,
        JailError::EscapedRoot {
            attempted: b"/etc/passwd".to_vec(),
            root: b"/srv/jail".to_vec(),
        }
    );
}

#[test]
fn precheck_rejects_nul_before_any_filesystem_access() {
    let e = check_absolute_input(b"/a\0b").unwrap_err();
    assert_eq!(e, JailError::InvalidPath(InvalidPathReason::NullByte));
    assert!(check_absolute_input(b"/a/b").is_ok());
}

#[test]
fn absolute_symlink_deep_inside_root_is_still_denied() {
    // The containment check runs after every appended component, so an
    // absolute target is re-walked from `/`, and its first component
    // alone ("/srv") does not extend the root ("/srv/jail"): strictly
    // denied, even though the full target would land inside.
    let j = jail();
    let e = run(
        &j,
        b"link",
        vec![
            FsEvent::Symlink { target: b"/srv/jail/x".to_vec(), target_exists: true },
            FsEvent::Present,
        ],
    )
    .unwrap_err();
    assert_eq!(
        e,
        JailError::EscapedRoot {
            attempted: b"/srv".to_vec(),
            root: b"/srv/jail".to_vec(),
        }
    );
}

#[test]
fn join_roundtrip_through_contains_and_relative() {
    let j = jail();
    let p = run(&j, b"a/b", vec![FsEvent::Present, FsEvent::Present]).unwrap();
    assert_eq!(j.contains_check(&p).unwrap(), p);
    assert_eq!(j.relative_of(&p).unwrap(), b"a/b".to_vec());
}
