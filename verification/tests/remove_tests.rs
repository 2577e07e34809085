use symbol_table::remove::{
    is_program_name_valid, normalize_dependency_name, remove_matching, removal_kind, Dependency,
    Manifest, RemovalKind, Remove, RemoveError,
};

fn dep(name: &str, path: Option<&str>, network: Option<&str>) -> Dependency {
    Dependency {
        name: name.as_bytes().to_vec(),
        path: path.map(|p| p.as_bytes().to_vec()),
        network: network.map(|n| n.as_bytes().to_vec()),
    }
}

fn manifest(deps: Option<Vec<Dependency>>) -> Manifest {
    Manifest {
        program: b"wallet.aleo".to_vec(),
        version: b"0.1.0".to_vec(),
        description: b"".to_vec(),
        license: b"MIT".to_vec(),
        dependencies: deps,
    }
}

fn remove_cmd(name: Option<&str>, all: bool) -> Remove {
    Remove {
        name: name.map(|n| n.as_bytes().to_vec()),
        local: None,
        network: b"testnet3".to_vec(),
        all,
    }
}

#[test]
fn program_name_validity() {
    assert!(is_program_name_valid(&b"credits".to_vec()));
    assert!(is_program_name_valid(&b"token_2".to_vec()));
    assert!(!is_program_name_valid(&b"".to_vec()));
    assert!(!is_program_name_valid(&b"Credits".to_vec()));
    assert!(!is_program_name_valid(&b"2tokens".to_vec()));
    assert!(!is_program_name_valid(&b"_credits".to_vec()));
    assert!(!is_program_name_valid(&b"credits.aleo".to_vec()));
}

#[test]
fn bare_name_gains_the_suffix() {
    let r = normalize_dependency_name(&Some(b"credits".to_vec()));
    assert_eq!(r, Ok(b"credits.aleo".to_vec()));
}

#[test]
fn suffixed_name_stays_as_it_is() {
    let r = normalize_dependency_name(&Some(b"credits.aleo".to_vec()));
    assert_eq!(r, Ok(b"credits.aleo".to_vec()));
}

#[test]
fn invalid_or_missing_names_are_rejected() {
    assert_eq!(
        normalize_dependency_name(&Some(b"Credits".to_vec())),
        Err(RemoveError::InvalidFileNameDependency)
    );
    assert_eq!(
        normalize_dependency_name(&Some(b"9lives.aleo".to_vec())),
        Err(RemoveError::InvalidFileNameDependency)
    );
    assert_eq!(normalize_dependency_name(&None), Err(RemoveError::InvalidFileNameDependency));
}

#[test]
fn removal_kind_prefers_path_then_network() {
    assert_eq!(removal_kind(&dep("a.aleo", Some("../a"), None)), RemovalKind::Local);
    assert_eq!(removal_kind(&dep("a.aleo", Some("../a"), Some("testnet3"))), RemovalKind::Local);
    assert_eq!(removal_kind(&dep("a.aleo", None, Some("testnet3"))), RemovalKind::Network);
    assert_eq!(removal_kind(&dep("a.aleo", None, None)), RemovalKind::Git);
}

#[test]
fn remove_matching_partitions_in_order() {
    let deps = vec![
        dep("a.aleo", None, Some("testnet3")),
        dep("b.aleo", None, None),
        dep("a.aleo", Some("../a"), None),
        dep("c.aleo", None, Some("testnet3")),
    ];
    let (kept, removed) = remove_matching(deps, &b"a.aleo".to_vec());
    let kept_names: Vec<&[u8]> = kept.iter().map(|d| d.name.as_slice()).collect();
    assert_eq!(kept_names, vec![b"b.aleo".as_slice(), b"c.aleo".as_slice()]);
    assert_eq!(removed.len(), 2);
    assert_eq!(removal_kind(&removed[0]), RemovalKind::Network);
    assert_eq!(removal_kind(&removed[1]), RemovalKind::Local);
}

#[test]
fn apply_removes_a_named_dependency() {
    let m = manifest(Some(vec![
        dep("credits.aleo", None, Some("testnet3")),
        dep("token.aleo", None, None),
    ]));
    let (m2, removed) = remove_cmd(Some("credits"), false).apply(m).expect("match found");
    let deps = m2.dependencies.expect("list kept");
    assert_eq!(deps.len(), 1);
    assert_eq!(deps[0].name, b"token.aleo".to_vec());
    assert_eq!(removed.len(), 1);
    assert_eq!(removed[0].name, b"credits.aleo".to_vec());
    assert_eq!(m2.program, b"wallet.aleo".to_vec());
    assert_eq!(m2.license, b"MIT".to_vec());
}

#[test]
fn apply_reports_a_missing_dependency() {
    let m = manifest(Some(vec![dep("token.aleo", None, None)]));
    let r = remove_cmd(Some("credits"), false).apply(m);
    assert!(matches!(r, Err(RemoveError::DependencyNotFound)));

    let none = manifest(None);
    let r2 = remove_cmd(Some("credits"), false).apply(none);
    assert!(matches!(r2, Err(RemoveError::DependencyNotFound)));
}

#[test]
fn apply_rejects_bad_names() {
    let m = manifest(Some(vec![dep("token.aleo", None, None)]));
    let r = remove_cmd(Some("To-kens"), false).apply(m);
    assert!(matches!(r, Err(RemoveError::InvalidFileNameDependency)));

    let m2 = manifest(Some(vec![dep("token.aleo", None, None)]));
    let r2 = remove_cmd(None, false).apply(m2);
    assert!(matches!(r2, Err(RemoveError::InvalidFileNameDependency)));
}

#[test]
fn apply_all_clears_the_list() {
    let m = manifest(Some(vec![
        dep("credits.aleo", None, Some("testnet3")),
        dep("token.aleo", None, None),
    ]));
    let (m2, removed) = remove_cmd(None, true).apply(m).expect("clearing needs no name");
    assert_eq!(m2.dependencies.map(|d| d.len()), Some(0));
    assert_eq!(removed.len(), 0);
}
