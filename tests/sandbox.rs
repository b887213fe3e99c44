use jailer::env::{EnvAction, EnvTable};
use jailer::error::JailError;
use jailer::jail::{Cleanup, EnvJailer, Jailer, Opening};
use std::io::{Error, ErrorKind};
use std::path::PathBuf;

fn b(s: &str) -> Vec<u8> {
    s.as_bytes().to_vec()
}

fn table(pairs: &[(&str, &str)]) -> EnvTable {
    let mut t = EnvTable::new();
    for (k, v) in pairs {
        t.set(b(k), b(v));
    }
    t
}

fn prepare(dir: u32) -> Opening<u32, ()> {
    match Opening::new((), Ok(dir), Ok(PathBuf::from("/home/start"))) {
        Ok(o) => o,
        Err(_) => panic!("preparing failed"),
    }
}

fn open(dir: u32) -> Jailer<u32, ()> {
    match Jailer::new(prepare(dir), Ok(())) {
        Ok(j) => j,
        Err(_) => panic!("opening failed"),
    }
}

fn failure() -> Error {
    Error::new(ErrorKind::PermissionDenied, "denied")
}

/// Plays the owner of a sandbox and counts the effects it is asked for.
#[derive(Default)]
struct Effects {
    returns: u32,
    deletions: Vec<u32>,
}

impl Effects {
    fn carry_out(&mut self, c: Cleanup<u32>) {
        match c {
            Cleanup::Nothing => {}
            Cleanup::ReturnOnly => self.returns += 1,
            Cleanup::ReturnAndDelete(d) => {
                self.returns += 1;
                self.deletions.push(d);
            }
        }
    }
}

#[test]
fn opening_keeps_directory_and_origin() {
    let j = open(7);
    assert_eq!(j.directory(), Some(&7));
    assert_eq!(j.original_directory(), &PathBuf::from("/home/start"));
    assert!(!j.is_closed());
}

#[test]
fn opening_fails_when_directory_cannot_be_made() {
    match Opening::<u32, ()>::new((), Err(failure()), Ok(PathBuf::from("/x"))) {
        Ok(_) => panic!("should fail"),
        Err((d, e)) => {
            assert_eq!(d, None);
            assert!(matches!(e, JailError::TempDirCreationFailed(_)));
        }
    }
}

#[test]
fn opening_fails_when_origin_unreadable() {
    match Opening::new((), Ok(7u32), Err(failure())) {
        Ok(_) => panic!("should fail"),
        Err((d, e)) => {
            assert_eq!(d, Some(7));
            assert!(matches!(e, JailError::DirectoryChangeFailed(_)));
        }
    }
}

#[test]
fn opening_fails_and_hands_back_directory_when_entering_fails() {
    let o = prepare(9);
    assert_eq!(o.directory(), &9);
    match Jailer::new(o, Err(failure())) {
        Ok(_) => panic!("should fail"),
        Err((d, e)) => {
            assert_eq!(d, 9);
            assert!(matches!(e, JailError::DirectoryChangeFailed(_)));
            assert_eq!(e.into_source().kind(), ErrorKind::PermissionDenied);
        }
    }
}

#[test]
fn successful_close_then_drop_cleans_up_once() {
    let mut fx = Effects::default();
    let mut j = open(7);
    fx.returns += 1;
    let dir = j.close_returned(Ok(())).unwrap();
    assert_eq!(dir, Some(7));
    fx.deletions.push(dir.unwrap());
    assert!(j.close_deleted(Ok(())).is_ok());
    assert!(j.is_closed());
    let c = j.teardown();
    assert_eq!(c, Cleanup::Nothing);
    fx.carry_out(c);
    assert_eq!(fx.returns, 1);
    assert_eq!(fx.deletions, vec![7]);
}

#[test]
fn failed_return_hands_directory_out_to_keep_and_is_not_retried() {
    let mut j = open(7);
    match j.close_returned(Err(failure())) {
        Ok(_) => panic!("should fail"),
        Err((d, e)) => {
            assert_eq!(d, Some(7));
            assert!(matches!(e, JailError::DirectoryChangeFailed(_)));
        }
    }
    assert!(j.is_closed());
    assert_eq!(j.directory(), None);
    assert_eq!(j.teardown(), Cleanup::Nothing);
}

#[test]
fn failed_deletion_is_reported_and_not_retried() {
    let mut j = open(7);
    assert_eq!(j.close_returned(Ok(())).unwrap(), Some(7));
    assert!(!j.is_closed());
    let r = j.close_deleted(Err(failure()));
    assert!(matches!(r, Err(JailError::DirectoryDeletionFailed(_))));
    assert!(j.is_closed());
    assert_eq!(j.teardown(), Cleanup::Nothing);
}

#[test]
fn teardown_without_close_runs_once() {
    let mut fx = Effects::default();
    let mut j = open(3);
    fx.carry_out(j.teardown());
    fx.carry_out(j.teardown());
    assert_eq!(fx.returns, 1);
    assert_eq!(fx.deletions, vec![3]);
    assert!(j.is_closed());
    assert_eq!(j.directory(), None);
}

#[test]
fn sequential_sandboxes_each_close() {
    for dir in [1u32, 2u32] {
        let mut j = open(dir);
        assert_eq!(j.close_returned(Ok(())).unwrap(), Some(dir));
        assert!(j.close_deleted(Ok(())).is_ok());
        assert!(j.is_closed());
    }
}

#[test]
fn env_round_trip_restores_snapshot_exactly() {
    let env = EnvJailer::new(table(&[("A", "1"), ("B", "2")]), open(1));
    let mut current = table(&[("A", "1"), ("B", "2")]);
    current.remove(&b("A"));
    current.set(b("C"), b("3"));
    let (plan, inner) = env.close(&current);
    current.apply_all(&plan);
    assert_eq!(current.len(), 2);
    assert_eq!(current.get(&b("A")), Some(&b("1")));
    assert_eq!(current.get(&b("B")), Some(&b("2")));
    assert!(current.get(&b("C")).is_none());
    assert_eq!(inner.directory(), Some(&1));
}

#[test]
fn preserved_key_keeps_value_at_close() {
    let mut env = EnvJailer::new(table(&[("A", "1"), ("K", "v")]), open(1));
    env.set_preserved_env(b("A"));
    let mut current = table(&[("A", "1"), ("K", "v")]);
    current.set(b("A"), b("2"));
    current.set(b("B"), b("new"));
    current.set(b("K"), b("changed"));
    let plan = env.revert_env_vars(&current);
    current.apply_all(&plan);
    assert_eq!(current.get(&b("A")), Some(&b("2")));
    assert!(current.get(&b("B")).is_none());
    assert_eq!(current.get(&b("K")), Some(&b("v")));
    assert_eq!(current.len(), 2);
}

#[test]
fn preserved_key_absent_at_close_stays_absent() {
    let mut env = EnvJailer::new(table(&[("A", "1")]), open(1));
    env.set_preserved_env(b("A"));
    let mut current = table(&[]);
    let plan = env.revert_env_vars(&current);
    current.apply_all(&plan);
    assert!(current.get(&b("A")).is_none());
}

#[test]
fn unpreserving_restores_again() {
    let mut env = EnvJailer::new(table(&[]), open(1));
    env.set_preserved_env(b("KEY"));
    assert!(env.preserved_env_vars_os().contains(&b("KEY")));
    env.remove_preserved_env(&b("KEY"));
    assert!(!env.preserved_env_vars_os().contains(&b("KEY")));
    let mut current = table(&[("KEY", "VALUE")]);
    let plan = env.revert_env_vars(&current);
    current.apply_all(&plan);
    assert_eq!(current.len(), 0);
}

#[test]
fn plan_removes_before_it_sets() {
    let env = EnvJailer::new(table(&[("A", "1"), ("B", "2")]), open(1));
    let current = table(&[("A", "x"), ("C", "3")]);
    let plan = env.revert_env_vars(&current);
    assert_eq!(plan.len(), 4);
    assert!(matches!(plan[0], EnvAction::Remove(_)));
    assert!(matches!(plan[1], EnvAction::Remove(_)));
    assert!(plan[2..].contains(&EnvAction::Assign(b("A"), b("1"))));
    assert!(plan[2..].contains(&EnvAction::Assign(b("B"), b("2"))));
}

#[test]
fn snapshot_and_origin_are_kept() {
    let env = EnvJailer::new(table(&[("A", "1")]), open(4));
    assert_eq!(env.original_env_vars_os().get(&b("A")), Some(&b("1")));
    assert_eq!(env.original_directory(), &PathBuf::from("/home/start"));
    assert_eq!(env.jailer().directory(), Some(&4));
    assert!(env.preserved_env_vars_os().keys().is_empty());
}
