use crate::errors::ChenvError;
use crate::interpol::vars_from;
use crate::interpol::InterpolableString;
use crate::smap::MapValue;
use vstd::prelude::*;

verus! {

/// A declared file resource: a templated URL, a display name, exactly one
/// integrity hash, an optional proxy, and the archive / executable flags.
pub struct File {
    pub url: InterpolableString,
    pub name: String,
    pub sha256: Option<String>,
    pub sha512: Option<String>,
    pub proxy: Option<String>,
    pub archive: bool,
    pub executable: bool,
}

/// Mathematical model of a `File` declaration.
pub struct FileModel {
    pub url: Seq<char>,
    pub name: Seq<char>,
    pub sha256: Option<Seq<char>>,
    pub sha512: Option<Seq<char>>,
    pub proxy: Option<Seq<char>>,
    pub archive: bool,
    pub executable: bool,
}

pub open spec fn opt_view(o: Option<String>) -> Option<Seq<char>> {
    match o {
        Some(s) => Some(s@),
        None => None,
    }
}

impl View for File {
    type V = FileModel;

    open spec fn view(&self) -> FileModel {
        FileModel {
            url: self.url@,
            name: self.name@,
            sha256: opt_view(self.sha256),
            sha512: opt_view(self.sha512),
            proxy: opt_view(self.proxy),
            archive: self.archive,
            executable: self.executable,
        }
    }
}

/// A named, polymorphic resource declaration. Only `File` acquisition is
/// implemented; `Archive` and `Git` are declared for configuration
/// compatibility and reject acquisition.
pub enum Resource {
    Archive { url: InterpolableString, sha256: String },
    File { repo_location: Option<String>, file: File },
    Git { url: InterpolableString, commit: String },
}

/// Mathematical model of a `Resource` declaration.
pub enum ResourceModel {
    Archive { url: Seq<char>, sha256: Seq<char> },
    File { repo_location: Option<Seq<char>>, file: FileModel },
    Git { url: Seq<char>, commit: Seq<char> },
}

impl View for Resource {
    type V = ResourceModel;

    open spec fn view(&self) -> ResourceModel {
        match self {
            Resource::Archive { url, sha256 } => ResourceModel::Archive {
                url: url@,
                sha256: sha256@,
            },
            Resource::File { repo_location, file } => ResourceModel::File {
                repo_location: opt_view(*repo_location),
                file: file@,
            },
            Resource::Git { url, commit } => ResourceModel::Git { url: url@, commit: commit@ },
        }
    }
}

pub fn opt_string_eq(a: &Option<String>, b: &Option<String>) -> (r: bool)
    ensures
        r == (opt_view(*a) == opt_view(*b)),
{
    match (a, b) {
        (None, None) => true,
        (Some(x), Some(y)) => x.eq(y),
        _ => false,
    }
}

pub fn opt_string_dup(a: &Option<String>) -> (r: Option<String>)
    ensures
        opt_view(r) == opt_view(*a),
{
    match a {
        None => None,
        Some(x) => Some(x.clone()),
    }
}

impl File {
    fn same_as(&self, other: &File) -> (r: bool)
        ensures
            r == (self@ == other@),
    {
        let r = self.url.value_eq(&other.url) && self.name.eq(&other.name) && opt_string_eq(
            &self.sha256,
            &other.sha256,
        ) && opt_string_eq(&self.sha512, &other.sha512) && opt_string_eq(&self.proxy, &other.proxy)
            && self.archive == other.archive && self.executable == other.executable;
        proof {
            if r {
                assert(self@ == other@);
            }
        }
        r
    }

    fn duplicate(&self) -> (r: File)
        ensures
            r@ == self@,
    {
        File {
            url: self.url.dup(),
            name: self.name.clone(),
            sha256: opt_string_dup(&self.sha256),
            sha512: opt_string_dup(&self.sha512),
            proxy: opt_string_dup(&self.proxy),
            archive: self.archive,
            executable: self.executable,
        }
    }

    /// The names of the resources this file's URL template references.
    pub fn get_dependances(&self) -> (r: Result<Vec<String>, ChenvError>)
        ensures
            match r {
                Ok(vs) => vars_from(self.url@, 0) == Some(vs.deep_view()),
                Err(e) => vars_from(self.url@, 0) is None && e matches
                    ChenvError::UnterminatedPlaceholder,
            },
    {
        self.url.get_variables()
    }
}

impl MapValue for Resource {
    fn value_eq(&self, other: &Self) -> (r: bool) {
        match (self, other) {
            (
                Resource::Archive { url: u1, sha256: s1 },
                Resource::Archive { url: u2, sha256: s2 },
            ) => u1.value_eq(u2) && s1.eq(s2),
            (
                Resource::File { repo_location: l1, file: f1 },
                Resource::File { repo_location: l2, file: f2 },
            ) => opt_string_eq(l1, l2) && f1.same_as(f2),
            (Resource::Git { url: u1, commit: c1 }, Resource::Git { url: u2, commit: c2 }) => u1
                .value_eq(u2) && c1.eq(c2),
            _ => false,
        }
    }

    fn dup(&self) -> (r: Self) {
        match self {
            Resource::Archive { url, sha256 } => Resource::Archive {
                url: url.dup(),
                sha256: sha256.clone(),
            },
            Resource::File { repo_location, file } => Resource::File {
                repo_location: opt_string_dup(repo_location),
                file: file.duplicate(),
            },
            Resource::Git { url, commit } => Resource::Git {
                url: url.dup(),
                commit: commit.clone(),
            },
        }
    }
}

/// The dependency names of a resource declaration, at the model level: what
/// its URL template references. Declarations whose acquisition is not
/// implemented have no edges.
pub open spec fn resource_deps(m: ResourceModel) -> Seq<Seq<char>> {
    match m {
        ResourceModel::File { repo_location: _, file } => match vars_from(file.url, 0) {
            Some(vs) => vs,
            None => Seq::empty(),
        },
        _ => Seq::empty(),
    }
}

/// Whether the declaration's URL template scans cleanly (no unterminated
/// placeholder); declarations without an implemented acquisition are not
/// scanned.
pub open spec fn resource_vars_ok(m: ResourceModel) -> bool {
    match m {
        ResourceModel::File { repo_location: _, file } => vars_from(file.url, 0) is Some,
        _ => true,
    }
}

impl Resource {
    /// The names of the resources this declaration depends on.
    pub fn get_dependances(&self) -> (r: Result<Vec<String>, ChenvError>)
        requires
            self matches Resource::File { .. },
        ensures
            match r {
                Ok(vs) => resource_deps(self@) == vs.deep_view() && vars_from(
                    self->File_file.url@,
                    0,
                ) is Some,
                Err(e) => vars_from(self->File_file.url@, 0) is None && e matches
                    ChenvError::UnterminatedPlaceholder,
            },
    {
        match self {
            Resource::File { repo_location: _, file } => file.get_dependances(),
            _ => Err(ChenvError::Config(String::new())),
        }
    }
}

} // verus!
