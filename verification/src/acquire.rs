use crate::errors::ChenvError;
use crate::interpol::err_matches;
use crate::interpol::interp_from;
use crate::interpol::Env;
use crate::interpol::InterpolableString;
use crate::smap::MapValue;
use crate::resource::opt_view;
use crate::resource::File;
use crate::resource::Resource;
use crate::resource::FileModel;
use crate::resource::opt_string_dup;
use crate::strutil::chars_to_string;
use crate::substrate::Substrate;
use crate::value::hex_digit;
use crate::value::ValModel;
use vstd::prelude::*;

verus! {

/// The sha-256 digest of a byte string, as the `sha2` crate computes it.
pub uninterp spec fn sha256_of(b: Seq<u8>) -> Seq<u8>;

/// The sha-512 digest of a byte string, as the `sha2` crate computes it.
pub uninterp spec fn sha512_of(b: Seq<u8>) -> Seq<u8>;

/// Relies on `sha2::Sha256` (through `sha2::Digest::digest`): the digest is a
/// function of the input bytes alone and is 32 bytes long.
#[verifier::external_body]
fn sha256(bytes: &Vec<u8>) -> (r: Vec<u8>)
    ensures
        r@ == sha256_of(bytes@),
        r@.len() == 32,
{
    <sha2::Sha256 as sha2::Digest>::digest(bytes.as_slice()).to_vec()
}

/// Relies on `sha2::Sha512` (through `sha2::Digest::digest`): the digest is a
/// function of the input bytes alone and is 64 bytes long.
#[verifier::external_body]
fn sha512(bytes: &Vec<u8>) -> (r: Vec<u8>)
    ensures
        r@ == sha512_of(bytes@),
        r@.len() == 64,
{
    <sha2::Sha512 as sha2::Digest>::digest(bytes.as_slice()).to_vec()
}

/// The scheme of `s` as the `url` crate parses it: lower-cased, without the
/// trailing colon; `None` when `s` is not a valid URL.
pub uninterp spec fn url_scheme_of(s: Seq<char>) -> Option<Seq<char>>;

/// Relies on `url::Url::parse` and `url::Url::scheme`: parsing depends on the
/// text alone, and the scheme comes back lower-cased without its ':'.
#[verifier::external_body]
fn parse_scheme(s: &str) -> (r: Option<String>)
    ensures
        match r {
            Some(sc) => url_scheme_of(s@) == Some(sc@),
            None => url_scheme_of(s@) is None,
        },
{
    match url::Url::parse(s) {
        Ok(u) => Some(u.scheme().to_string()),
        Err(_) => None,
    }
}

/// The local path a `file:` URL denotes, as the `url` crate computes it
/// (percent-decoding and host checks included); `None` when the text is not a
/// URL or has no local path.
pub uninterp spec fn url_file_path_of(s: Seq<char>) -> Option<Seq<char>>;

/// Relies on `url::Url::parse` and `url::Url::to_file_path`: both depend on
/// the text alone.
#[verifier::external_body]
fn file_url_path(s: &str) -> (r: Option<String>)
    ensures
        match r {
            Some(p) => url_file_path_of(s@) == Some(p@),
            None => url_file_path_of(s@) is None,
        },
{
    match url::Url::parse(s) {
        Ok(u) => match u.to_file_path() {
            Ok(p) => Some(p.to_string_lossy().into_owned()),
            Err(()) => None,
        },
        Err(_) => None,
    }
}

/// Two lower-case hex digits for every byte, in order.
pub open spec fn hex_of(b: Seq<u8>) -> Seq<char>
    decreases b.len(),
{
    if b.len() == 0 {
        Seq::empty()
    } else {
        hex_of(b.drop_last()) + seq![
            hex_digit(b.last() as int / 16),
            hex_digit(b.last() as int % 16),
        ]
    }
}

/// Hex-encodes a digest.
fn to_hex(b: &Vec<u8>) -> (r: String)
    ensures
        r@ == hex_of(b@),
{
    let n = b.len();
    let mut out: Vec<char> = Vec::new();
    let mut i: usize = 0;
    while i < n
        invariant
            i <= n,
            n == b@.len(),
            out@ == hex_of(b@.subrange(0, i as int)),
        decreases n - i,
    {
        let x = b[i];
        out.push(hex_digit_byte(x / 16));
        out.push(hex_digit_byte(x % 16));
        proof {
            let pre = b@.subrange(0, i + 1 as int);
            assert(pre.drop_last() =~= b@.subrange(0, i as int));
            assert(pre.last() == b@[i as int]);
            assert(out@ =~= hex_of(pre));
        }
        i += 1;
    }
    proof {
        assert(b@.subrange(0, n as int) =~= b@);
    }
    chars_to_string(&out)
}

fn hex_digit_byte(n: u8) -> (r: char)
    requires
        n < 16,
    ensures
        r == hex_digit(n as int),
{
    if n == 0 {
        '0'
    } else if n == 1 {
        '1'
    } else if n == 2 {
        '2'
    } else if n == 3 {
        '3'
    } else if n == 4 {
        '4'
    } else if n == 5 {
        '5'
    } else if n == 6 {
        '6'
    } else if n == 7 {
        '7'
    } else if n == 8 {
        '8'
    } else if n == 9 {
        '9'
    } else if n == 10 {
        'a'
    } else if n == 11 {
        'b'
    } else if n == 12 {
        'c'
    } else if n == 13 {
        'd'
    } else if n == 14 {
        'e'
    } else {
        'f'
    }
}

/// Which of the two supported digest algorithms a resource declares.
pub enum HashKind {
    Sha256,
    Sha512,
}

/// The digest the declared algorithm assigns to the bytes.
pub open spec fn digest_of(kind: HashKind, b: Seq<u8>) -> Seq<u8> {
    match kind {
        HashKind::Sha256 => sha256_of(b),
        HashKind::Sha512 => sha512_of(b),
    }
}

/// The per-resource acquisition plan: the declared digest, the store paths
/// derived from it, and the declaration fields the later stages need.
pub struct Plan {
    pub kind: HashKind,
    pub expected: String,
    pub output_dir: String,
    pub output_file: String,
    pub url: InterpolableString,
    pub proxy: Option<String>,
    pub name: String,
    pub archive: bool,
    pub executable: bool,
}

/// The single hash a declaration carries: exactly one of sha-256 and sha-512,
/// anything else is a configuration error.
pub open spec fn hash_choice(f: FileModel) -> Option<(HashKind, Seq<char>)> {
    match (f.sha256, f.sha512) {
        (Some(s), Option::<Seq<char>>::None) => Some((HashKind::Sha256, s)),
        (Option::<Seq<char>>::None, Some(s)) => Some((HashKind::Sha512, s)),
        _ => None,
    }
}

/// A declaration can be planned when it carries exactly one hash, long enough
/// to key the store (its first sixteen hex characters).
pub open spec fn plan_ok(f: FileModel) -> bool {
    match hash_choice(f) {
        Some((_, h)) => h.len() >= 16,
        None => false,
    }
}

/// The substrate a finished acquisition exposes: the output directory path.
pub open spec fn cached_substrate(p: Plan) -> ValModel {
    ValModel::Str(p.output_dir@)
}

/// Where a resource's store lives: an absolute override is used as is, a
/// relative one (or the default `./.chenv`) is joined onto the configuration
/// file's directory.
pub open spec fn store_root_of(loc: Option<Seq<char>>, parent: Seq<char>) -> Seq<char> {
    match loc {
        Some(l) => if l.len() > 0 && l[0] == '/' {
            l
        } else {
            parent + seq!['/'] + l
        },
        None => parent + seq!['/'] + "./.chenv"@,
    }
}

/// Derives the store paths and hash choice for one file declaration.
///
/// The output directory is `store_root` extended with the first sixteen hex
/// characters of the declared digest; the output file is the declared name
/// inside it. Declaring both hashes, neither, or one too short to key the
/// store is a configuration error — exactly then the plan is refused.
pub fn plan_acquire(file: &File, store_root: &str) -> (r: Result<Plan, ChenvError>)
    ensures
        match r {
            Ok(p) => plan_ok(file@) && plan_matches(p, file@, store_root@),
            Err(e) => !plan_ok(file@) && e matches ChenvError::Config(_),
        },
{
    let (kind, expected): (HashKind, String) = match (&file.sha256, &file.sha512) {
        (Some(s), None) => (HashKind::Sha256, s.clone()),
        (None, Some(s)) => (HashKind::Sha512, s.clone()),
        (None, None) => {
            return Err(ChenvError::Config(String::from_str("need sha256 or sha512")));
        },
        (Some(_), Some(_)) => {
            return Err(
                ChenvError::Config(String::from_str("cannot have both sha256 and sha512")),
            );
        },
    };
    if expected.as_str().unicode_len() < 16 {
        return Err(ChenvError::Config(String::from_str("declared hash is too short")));
    }
    proof {
        reveal_strlit("/");
        assert("/"@ =~= seq!['/']);
    }
    let mut dir = store_root.to_owned();
    dir.append("/");
    let prefix = expected.as_str().substring_char(0, 16);
    dir.append(prefix);
    let mut out_file = dir.clone();
    out_file.append("/");
    out_file.append(file.name.as_str());
    Ok(
        Plan {
            kind,
            expected,
            output_dir: dir,
            output_file: out_file,
            url: file.url.dup(),
            proxy: opt_string_dup(&file.proxy),
            name: file.name.clone(),
            archive: file.archive,
            executable: file.executable,
        },
    )
}

/// A plan's fields, tied exactly to the declaration and store root they come
/// from.
pub open spec fn plan_matches(p: Plan, f: FileModel, root: Seq<char>) -> bool {
    &&& hash_choice(f) matches Some((kind, h)) && p.kind == kind && p.expected@ == h
        && p.output_dir@ == root + seq!['/'] + h.subrange(0, 16)
    &&& p.output_file@ == p.output_dir@ + seq!['/'] + f.name
    &&& p.url@ == f.url
    &&& opt_view(p.proxy) == f.proxy
    &&& p.name@ == f.name
    &&& p.archive == f.archive
    &&& p.executable == f.executable
}

impl Resource {
    /// Plans the acquisition of a declared resource: picks its store root
    /// (the declared override or the default, relative to the configuration
    /// file's directory) and derives the store paths. Only the `File` kind is
    /// implemented.
    pub fn plan(&self, config_parent: &str) -> (r: Result<Plan, ChenvError>)
        requires
            self matches Resource::File { .. },
        ensures
            match r {
                Ok(p) => plan_ok(self->File_file@) && plan_matches(
                    p,
                    self->File_file@,
                    store_root_of(
                        crate::resource::opt_view(self->File_repo_location),
                        config_parent@,
                    ),
                ),
                Err(e) => !plan_ok(self->File_file@) && e matches ChenvError::Config(_),
            },
    {
        match self {
            Resource::File { repo_location, file } => {
                proof {
                    reveal_strlit("/");
                    reveal_strlit("./.chenv");
                    assert("/"@ =~= seq!['/']);
                }
                let root: String = match repo_location {
                    Some(l) => {
                        if l.as_str().unicode_len() > 0 && l.as_str().get_char(0) == '/' {
                            l.clone()
                        } else {
                            let mut root = config_parent.to_owned();
                            root.append("/");
                            root.append(l.as_str());
                            root
                        }
                    },
                    None => {
                        let mut root = config_parent.to_owned();
                        root.append("/");
                        root.append("./.chenv");
                        root
                    },
                };
                plan_acquire(file, root.as_str())
            },
            _ => {
                proof {
                    assert(false);
                }
                Err(ChenvError::Config(String::new()))
            },
        }
    }
}

/// What the runner must do next to advance one resource's acquisition.
pub enum AcquireStep {
    /// Read the bytes of a local file (the `file` scheme); placement later
    /// copies the source file rather than moving it.
    ReadLocal { path: String },
    /// Perform a blocking GET, through the proxy when one is declared, and
    /// hand back the whole body.
    Download { url: String, proxy: Option<String> },
    /// Create `dir` and extract the verified archive bytes into `dest`; a
    /// failed extraction must remove the partial `dest` before reporting.
    Extract { dir: String, dest: String },
    /// Create `dir` and place the verified bytes at `dest`, granting execute
    /// permission when asked.
    Place { dir: String, dest: String, executable: bool },
}

/// Where one resource's acquisition stands after a transition.
pub enum AcquireOutcome {
    Next(AcquireStep),
    Done(Substrate),
    Failed(ChenvError),
}

/// How the runner reports a materialization (placement or extraction).
pub enum MaterializeEvent {
    Completed,
    UnknownFormat(String),
    Failure(String),
}

/// The cache-check transition. An existing output file finishes the
/// acquisition at once — no network step is ever produced — and the substrate
/// is the planned output directory, the same value every run returns.
/// Otherwise the URL template is interpolated and dispatched by scheme:
/// `file` is read locally, `http` and `https` are downloaded, anything else
/// is refused.
pub fn on_exists(plan: &Plan, ctx: &Env, exists: bool) -> (r: AcquireOutcome)
    requires
        ctx.wf(),
    ensures
        exists ==> (r matches AcquireOutcome::Done(s) && s@ == cached_substrate(*plan)),
        !exists ==> match interp_from(plan.url@, 0, ctx@) {
            Err(ie) => r matches AcquireOutcome::Failed(e) && err_matches(e, ie),
            Ok(u) => match url_scheme_of(u) {
                None => r matches AcquireOutcome::Failed(ChenvError::UnsupportedScheme(s))
                    && s@ == u,
                Some(sch) => if sch == "file"@ {
                    match url_file_path_of(u) {
                        Some(pth) => r matches AcquireOutcome::Next(
                            AcquireStep::ReadLocal { path },
                        ) && path@ == pth,
                        None => r matches AcquireOutcome::Failed(ChenvError::Filesystem(_)),
                    }
                } else if sch == "http"@ || sch == "https"@ {
                    r matches AcquireOutcome::Next(AcquireStep::Download { url, proxy }) && url@
                        == u && opt_view(proxy) == opt_view(plan.proxy)
                } else {
                    r matches AcquireOutcome::Failed(ChenvError::UnsupportedScheme(s)) && s@
                        == sch
                },
            },
        },
{
    if exists {
        return AcquireOutcome::Done(Substrate::new(plan.output_dir.clone()));
    }
    let url_str = match plan.url.interpolate(ctx) {
        Ok(u) => u,
        Err(e) => {
            return AcquireOutcome::Failed(e);
        },
    };
    let scheme = match parse_scheme(url_str.as_str()) {
        Some(sc) => sc,
        None => {
            return AcquireOutcome::Failed(ChenvError::UnsupportedScheme(url_str));
        },
    };
    proof {
        reveal_strlit("file");
        reveal_strlit("http");
        reveal_strlit("https");
    }
    let file_lit = String::from_str("file");
    let http_lit = String::from_str("http");
    let https_lit = String::from_str("https");
    if scheme.eq(&file_lit) {
        match file_url_path(url_str.as_str()) {
            Some(path) => AcquireOutcome::Next(AcquireStep::ReadLocal { path }),
            None => AcquireOutcome::Failed(
                ChenvError::Filesystem(String::from_str("URL denotes no local file")),
            ),
        }
    } else if scheme.eq(&http_lit) || scheme.eq(&https_lit) {
        AcquireOutcome::Next(
            AcquireStep::Download { url: url_str, proxy: opt_string_dup(&plan.proxy) },
        )
    } else {
        AcquireOutcome::Failed(ChenvError::UnsupportedScheme(scheme))
    }
}

/// The integrity transition. Bytes whose digest differs from the declaration
/// fail with the mismatch — no placement or extraction step is produced, so
/// nothing ever reaches the output path. Matching bytes go on to extraction
/// (archives) or placement (plain files).
pub fn on_bytes(plan: &Plan, source_url: &String, bytes: &Vec<u8>) -> (r: AcquireOutcome)
    ensures
        hex_of(digest_of(plan.kind, bytes@)) != plan.expected@ ==> (r matches
            AcquireOutcome::Failed(ChenvError::IntegrityMismatch { url, computed, expected })
            && url@ == source_url@ && computed@ == hex_of(digest_of(plan.kind, bytes@))
            && expected@ == plan.expected@),
        hex_of(digest_of(plan.kind, bytes@)) == plan.expected@ && plan.archive ==> (r matches
            AcquireOutcome::Next(AcquireStep::Extract { dir, dest }) && dir@ == plan.output_dir@
            && dest@ == plan.output_file@),
        hex_of(digest_of(plan.kind, bytes@)) == plan.expected@ && !plan.archive ==> (r matches
            AcquireOutcome::Next(AcquireStep::Place { dir, dest, executable }) && dir@
            == plan.output_dir@ && dest@ == plan.output_file@ && executable == plan.executable),
{
    let digest = match &plan.kind {
        HashKind::Sha256 => sha256(bytes),
        HashKind::Sha512 => sha512(bytes),
    };
    let computed = to_hex(&digest);
    if !computed.eq(&plan.expected) {
        return AcquireOutcome::Failed(
            ChenvError::IntegrityMismatch {
                url: source_url.clone(),
                computed,
                expected: plan.expected.clone(),
            },
        );
    }
    if plan.archive {
        AcquireOutcome::Next(
            AcquireStep::Extract {
                dir: plan.output_dir.clone(),
                dest: plan.output_file.clone(),
            },
        )
    } else {
        AcquireOutcome::Next(
            AcquireStep::Place {
                dir: plan.output_dir.clone(),
                dest: plan.output_file.clone(),
                executable: plan.executable,
            },
        )
    }
}

/// The materialization transition: a completed placement or extraction
/// finishes with the same substrate a cache hit returns; a failure surfaces
/// as the matching error and produces no further step.
pub fn on_materialized(plan: &Plan, event: MaterializeEvent) -> (r: AcquireOutcome)
    ensures
        event matches MaterializeEvent::Completed ==> (r matches AcquireOutcome::Done(s) && s@
            == cached_substrate(*plan)),
        event matches MaterializeEvent::UnknownFormat(m) ==> (r matches AcquireOutcome::Failed(
            ChenvError::UnsupportedArchiveFormat(m2),
        ) && m2@ == m@),
        event matches MaterializeEvent::Failure(m) ==> (r matches AcquireOutcome::Failed(
            ChenvError::Filesystem(m2),
        ) && m2@ == m@),
{
    match event {
        MaterializeEvent::Completed => AcquireOutcome::Done(
            Substrate::new(plan.output_dir.clone()),
        ),
        MaterializeEvent::UnknownFormat(m) => AcquireOutcome::Failed(
            ChenvError::UnsupportedArchiveFormat(m),
        ),
        MaterializeEvent::Failure(m) => AcquireOutcome::Failed(ChenvError::Filesystem(m)),
    }
}

/// The sha-256 digest of the bytes, hex-encoded.
pub fn sha256_hex(bytes: &Vec<u8>) -> (r: String)
    ensures
        r@ == hex_of(sha256_of(bytes@)),
{
    let d = sha256(bytes);
    to_hex(&d)
}

/// Whether the bytes hash to the declared hex digest.
pub fn digest_matches(kind: &HashKind, bytes: &Vec<u8>, expected: &String) -> (r: bool)
    ensures
        r == (hex_of(digest_of(*kind, bytes@)) == expected@),
{
    let digest = match kind {
        HashKind::Sha256 => sha256(bytes),
        HashKind::Sha512 => sha512(bytes),
    };
    let hex = to_hex(&digest);
    hex.eq(expected)
}

} // verus!
