//! The decision logic of the dependency-removal command: validating and
//! normalizing a program name and rewriting the manifest's dependency list.
//! Reading and writing the manifest file is left to the surrounding tooling;
//! this module works on the manifest as plain values.

use vstd::prelude::*;

verus! {

/// Failures of the removal command.
#[derive(Clone, Copy, Debug, PartialEq, Eq, Structural)]
pub enum RemoveError {
    /// No dependency name was given, or the given one is not a valid program
    /// name (with or without its file suffix).
    InvalidFileNameDependency,
    /// The manifest holds no dependency of the requested name.
    DependencyNotFound,
}

/// How a removed dependency was referenced, for reporting.
#[derive(Clone, Copy, Debug, PartialEq, Eq, Structural)]
pub enum RemovalKind {
    Local,
    Network,
    Git,
}

/// One manifest dependency: its program name and, when present, the local
/// path or the network it is fetched from, all as plain bytes.
pub struct Dependency {
    pub name: Vec<u8>,
    pub path: Option<Vec<u8>>,
    pub network: Option<Vec<u8>>,
}

/// The manifest fields the removal command reads and rewrites verbatim.
pub struct Manifest {
    pub program: Vec<u8>,
    pub version: Vec<u8>,
    pub description: Vec<u8>,
    pub license: Vec<u8>,
    pub dependencies: Option<Vec<Dependency>>,
}

pub open spec fn is_lower(c: u8) -> bool {
    97 <= c <= 122
}

pub open spec fn is_digit(c: u8) -> bool {
    48 <= c <= 57
}

/// A valid program name starts with a lowercase letter and continues with
/// lowercase letters, digits and underscores.
pub open spec fn valid_program_name(s: Seq<u8>) -> bool {
    &&& s.len() > 0
    &&& is_lower(s[0])
    &&& forall|i: int| 0 <= i < s.len() ==> is_lower(#[trigger] s[i]) || is_digit(s[i]) || s[i]
        == 95
}

/// The file suffix a dependency name carries: the bytes of ".aleo".
pub open spec fn aleo_suffix() -> Seq<u8> {
    seq![46u8, 97u8, 108u8, 101u8, 111u8]
}

/// A dependency name normalizes to its suffixed form: a name already carrying
/// the suffix over a valid stem stays as it is, a valid bare name gains the
/// suffix, anything else is rejected.
pub open spec fn normalized_name(s: Seq<u8>) -> Option<Seq<u8>> {
    if s.len() >= 5 && s.subrange(s.len() - 5, s.len() as int) == aleo_suffix()
        && valid_program_name(s.subrange(0, s.len() - 5)) {
        Some(s)
    } else if valid_program_name(s) {
        Some(s + aleo_suffix())
    } else {
        None
    }
}

/// Copies a byte string.
pub fn clone_bytes(v: &Vec<u8>) -> (r: Vec<u8>)
    ensures
        r@ == v@,
{
    let mut r: Vec<u8> = Vec::new();
    let mut i: usize = 0;
    while i < v.len()
        invariant
            i <= v.len(),
            r@ == v@.subrange(0, i as int),
        decreases v.len() - i,
    {
        r.push(v[i]);
        proof {
            assert(r@ =~= v@.subrange(0, i as int + 1));
        }
        i = i + 1;
    }
    proof {
        assert(r@ =~= v@);
    }
    r
}

/// Compares two byte strings.
pub fn bytes_eq(a: &Vec<u8>, b: &Vec<u8>) -> (r: bool)
    ensures
        r == (a@ == b@),
{
    if a.len() != b.len() {
        proof {
            assert(a@.len() != b@.len());
        }
        return false;
    }
    let mut i: usize = 0;
    while i < a.len()
        invariant
            i <= a.len(),
            a@.len() == b@.len(),
            forall|j: int| 0 <= j < i ==> a@[j] == b@[j],
        decreases a.len() - i,
    {
        if a[i] != b[i] {
            return false;
        }
        i = i + 1;
    }
    proof {
        assert(a@ =~= b@);
    }
    true
}

/// Decides whether the first `end` bytes of `s` form a valid program name.
fn check_program_name(s: &Vec<u8>, end: usize) -> (r: bool)
    requires
        end <= s.len(),
    ensures
        r == valid_program_name(s@.subrange(0, end as int)),
{
    if end == 0 {
        return false;
    }
    let c0 = s[0];
    if !(97 <= c0 && c0 <= 122) {
        proof {
            assert(s@.subrange(0, end as int)[0] == s@[0]);
        }
        return false;
    }
    let mut i: usize = 0;
    while i < end
        invariant
            i <= end <= s@.len(),
            0 < end,
            is_lower(s@[0]),
            forall|j: int| 0 <= j < i ==> is_lower(#[trigger] s@[j]) || is_digit(s@[j])
                || s@[j] == 95,
        decreases end - i,
    {
        let c = s[i];
        if !((97 <= c && c <= 122) || (48 <= c && c <= 57) || c == 95) {
            proof {
                assert(s@.subrange(0, end as int)[i as int] == s@[i as int]);
            }
            return false;
        }
        i = i + 1;
    }
    proof {
        let sub = s@.subrange(0, end as int);
        assert(sub[0] == s@[0]);
        assert(forall|j: int| 0 <= j < sub.len() ==> #[trigger] sub[j] == s@[j]);
    }
    true
}

/// Whether this name is valid as a bare program name.
pub fn is_program_name_valid(name: &Vec<u8>) -> (r: bool)
    ensures
        r == valid_program_name(name@),
{
    let r = check_program_name(name, name.len());
    proof {
        assert(name@.subrange(0, name@.len() as int) =~= name@);
    }
    r
}

/// Normalizes the requested dependency name to its suffixed form; both the
/// bare and the suffixed spelling of a valid program name are accepted.
pub fn normalize_dependency_name(name: &Option<Vec<u8>>) -> (r: Result<Vec<u8>, RemoveError>)
    ensures
        match r {
            Ok(n) => (match name {
                Some(s) => normalized_name(s@) == Some(n@),
                None => false,
            }),
            Err(e) => e == RemoveError::InvalidFileNameDependency && (match name {
                Some(s) => normalized_name(s@) is None,
                None => true,
            }),
        },
{
    let s = match name {
        Some(s) => s,
        None => {
            return Err(RemoveError::InvalidFileNameDependency);
        }
    };
    let len = s.len();
    if len >= 5 && s[len - 5] == 46 && s[len - 4] == 97 && s[len - 3] == 108 && s[len - 2] == 101
        && s[len - 1] == 111 && check_program_name(s, len - 5) {
        proof {
            assert(s@.subrange(len - 5, len as int) =~= aleo_suffix());
        }
        return Ok(clone_bytes(s));
    }
    proof {
        if s@.len() >= 5 && s@.subrange(s@.len() - 5, s@.len() as int) == aleo_suffix() {
            assert(s@[len - 5] == s@.subrange(len - 5, len as int)[0]);
            assert(s@[len - 4] == s@.subrange(len - 5, len as int)[1]);
            assert(s@[len - 3] == s@.subrange(len - 5, len as int)[2]);
            assert(s@[len - 2] == s@.subrange(len - 5, len as int)[3]);
            assert(s@[len - 1] == s@.subrange(len - 5, len as int)[4]);
        }
    }
    if check_program_name(s, len) {
        proof {
            assert(s@.subrange(0, len as int) =~= s@);
        }
        let mut n = clone_bytes(s);
        n.push(46);
        n.push(97);
        n.push(108);
        n.push(101);
        n.push(111);
        proof {
            assert(n@ =~= s@ + aleo_suffix());
        }
        Ok(n)
    } else {
        proof {
            assert(s@.subrange(0, len as int) =~= s@);
        }
        Err(RemoveError::InvalidFileNameDependency)
    }
}

/// Names how a dependency was referenced: by a local path, by a network, or
/// neither (a git reference).
pub fn removal_kind(d: &Dependency) -> (r: RemovalKind)
    ensures
        d.path is Some ==> r == RemovalKind::Local,
        d.path is None && d.network is Some ==> r == RemovalKind::Network,
        d.path is None && d.network is None ==> r == RemovalKind::Git,
{
    match (&d.path, &d.network) {
        (Some(_), _) => RemovalKind::Local,
        (None, Some(_)) => RemovalKind::Network,
        (None, None) => RemovalKind::Git,
    }
}

/// The dependencies kept by a removal of `t`: those of a different name, in
/// their original order.
pub open spec fn kept_deps(ds: Seq<Dependency>, t: Seq<u8>) -> Seq<Dependency> {
    ds.filter(|d: Dependency| d.name@ != t)
}

/// The dependencies a removal of `t` drops: those named `t`, in order.
pub open spec fn removed_deps(ds: Seq<Dependency>, t: Seq<u8>) -> Seq<Dependency> {
    ds.filter(|d: Dependency| d.name@ == t)
}

proof fn lemma_kept_deps_push(ds: Seq<Dependency>, t: Seq<u8>, d: Dependency)
    ensures
        kept_deps(ds.push(d), t) == kept_deps(ds, t) + (if d.name@ != t {
            seq![d]
        } else {
            Seq::<Dependency>::empty()
        }),
{
    reveal(Seq::filter);
    assert(ds.push(d).drop_last() =~= ds);
    assert(ds.push(d).last() == d);
}

proof fn lemma_removed_deps_push(ds: Seq<Dependency>, t: Seq<u8>, d: Dependency)
    ensures
        removed_deps(ds.push(d), t) == removed_deps(ds, t) + (if d.name@ == t {
            seq![d]
        } else {
            Seq::<Dependency>::empty()
        }),
{
    reveal(Seq::filter);
    assert(ds.push(d).drop_last() =~= ds);
    assert(ds.push(d).last() == d);
}

/// Splits a dependency list into the entries kept (name differs from
/// `target`) and the entries removed (name equals `target`), both in their
/// original order.
pub fn remove_matching(deps: Vec<Dependency>, target: &Vec<u8>) -> (r: (
    Vec<Dependency>,
    Vec<Dependency>,
))
    ensures
        r.0@ == kept_deps(deps@, target@),
        r.1@ == removed_deps(deps@, target@),
{
    let ghost orig = deps@;
    let mut rest = deps;
    let mut kept: Vec<Dependency> = Vec::new();
    let mut removed: Vec<Dependency> = Vec::new();
    let total = rest.len();
    let mut i: usize = 0;
    while rest.len() > 0
        invariant
            total == orig.len(),
            i + rest@.len() == orig.len(),
            rest@ == orig.skip(i as int),
            kept@ == kept_deps(orig.take(i as int), target@),
            removed@ == removed_deps(orig.take(i as int), target@),
        decreases rest@.len(),
    {
        let d = rest.remove(0);
        proof {
            assert(d == orig[i as int]);
            assert(orig.skip(i as int).remove(0) =~= orig.skip(i as int + 1));
            assert(orig.take(i as int + 1) =~= orig.take(i as int).push(orig[i as int]));
            lemma_kept_deps_push(orig.take(i as int), target@, orig[i as int]);
            lemma_removed_deps_push(orig.take(i as int), target@, orig[i as int]);
        }
        let ghost kept0 = kept@;
        let ghost removed0 = removed@;
        if bytes_eq(&d.name, target) {
            removed.push(d);
            proof {
                assert(removed@ =~= removed0 + seq![d]);
                assert(kept@ =~= kept0 + Seq::<Dependency>::empty());
            }
        } else {
            kept.push(d);
            proof {
                assert(kept@ =~= kept0 + seq![d]);
                assert(removed@ =~= removed0 + Seq::<Dependency>::empty());
            }
        }
        i = i + 1;
    }
    proof {
        assert(orig.take(orig.len() as int) =~= orig);
    }
    (kept, removed)
}

/// The removal command as given on the command line: the dependency name to
/// drop (bare or suffixed), an optional local path, the network in use, and
/// whether to clear the whole list instead.
pub struct Remove {
    pub name: Option<Vec<u8>>,
    pub local: Option<Vec<u8>>,
    pub network: Vec<u8>,
    pub all: bool,
}

impl Remove {
    /// Rewrites the manifest: with `all`, the dependency list is cleared;
    /// otherwise every dependency carrying the normalized name is dropped,
    /// order and all other fields kept, and at least one entry must have
    /// matched. The removed entries are handed back for reporting.
    pub fn apply(self, manifest: Manifest) -> (r: Result<(Manifest, Vec<Dependency>), RemoveError>)
        ensures
            match r {
                Ok(pair) => {
                    &&& pair.0.program == manifest.program
                    &&& pair.0.version == manifest.version
                    &&& pair.0.description == manifest.description
                    &&& pair.0.license == manifest.license
                    &&& if self.all {
                        (pair.0.dependencies matches Some(ks) && ks@.len() == 0)
                            && pair.1@.len() == 0
                    } else {
                        match self.name {
                            Some(nm) => match normalized_name(nm@) {
                                Some(t) => match manifest.dependencies {
                                    Some(ds) => {
                                        &&& pair.0.dependencies matches Some(ks)
                                            && ks@ == kept_deps(ds@, t)
                                        &&& pair.1@ == removed_deps(ds@, t)
                                        &&& pair.1@.len() > 0
                                    },
                                    None => false,
                                },
                                None => false,
                            },
                            None => false,
                        }
                    }
                },
                Err(e) => {
                    &&& !self.all
                    &&& match self.name {
                        None => e == RemoveError::InvalidFileNameDependency,
                        Some(nm) => match normalized_name(nm@) {
                            None => e == RemoveError::InvalidFileNameDependency,
                            Some(t) => e == RemoveError::DependencyNotFound && (match manifest
                                .dependencies {
                                Some(ds) => removed_deps(ds@, t).len() == 0,
                                None => true,
                            }),
                        },
                    }
                },
            },
    {
        let Manifest { program, version, description, license, dependencies } = manifest;
        if self.all {
            let empty_deps: Vec<Dependency> = Vec::new();
            let out: Vec<Dependency> = Vec::new();
            return Ok((
                Manifest { program, version, description, license, dependencies: Some(empty_deps) },
                out,
            ));
        }
        let target = match normalize_dependency_name(&self.name) {
            Ok(t) => t,
            Err(e) => {
                return Err(e);
            }
        };
        let ds = match dependencies {
            Some(ds) => ds,
            None => {
                return Err(RemoveError::DependencyNotFound);
            }
        };
        let (kept, removed) = remove_matching(ds, &target);
        if removed.len() == 0 {
            return Err(RemoveError::DependencyNotFound);
        }
        Ok((
            Manifest { program, version, description, license, dependencies: Some(kept) },
            removed,
        ))
    }
}

} // verus!
