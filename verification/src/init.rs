use crate::config::Environment;
use crate::config::PathEnv;
use crate::interpol::InterpolableString;
use crate::osinfo::Os;
use crate::resource::File;
use crate::resource::FileModel;
use crate::resource::Resource;
use crate::resource::ResourceModel;
use crate::smap::StrMap;
use crate::strutil::find_char;
use crate::strutil::contains_sub;
use crate::strutil::split_on;
use crate::strutil::split_on_exec;
use crate::strutil::str_contains;
use crate::value::arr_model;
use crate::value::query_step;
use crate::value::ValModel;
use crate::value::Value;
use vstd::prelude::*;

verus! {

/// The text before the first space: how a `<digest> <name>` checksum line is
/// read.
pub fn first_word(s: &str) -> (r: String)
    ensures
        r@ == split_on(s@, ' ')[0],
{
    let len = s.unicode_len();
    match find_char(s, 0, ' ') {
        Some(j) => {
            let r = s.substring_char(0, j).to_owned();
            proof {
                crate::strutil::lemma_char_dist(s@, 0, ' ');
            }
            r
        },
        None => {
            let r = s.substring_char(0, len).to_owned();
            proof {
                assert(s@.subrange(0, len as int) =~= s@);
            }
            r
        },
    }
}

/// A one-resource bundle for an archive fetched over HTTPS: the named
/// resource, optional single env var, and path segments.
fn archive_file(url: String, name: String, sha256: Option<String>, sha512: Option<String>) -> (r:
    File)
    ensures
        r@ == (FileModel {
            url: url@,
            name: name@,
            sha256: crate::resource::opt_view(sha256),
            sha512: crate::resource::opt_view(sha512),
            proxy: None,
            archive: true,
            executable: false,
        }),
{
    File {
        url: InterpolableString::new(url),
        name,
        sha256,
        sha512,
        proxy: None,
        archive: true,
        executable: false,
    }
}

/// The shell bundle that installs one JDK release: the `java` resource, a
/// `JAVA_HOME` pointing into the extracted tree, and its `bin` on the path.
pub fn java_environment(release_name: &String, url: String, sha256: String) -> (r: Environment)
    ensures
        r.wf(),
        r.resources matches Some(rm) && rm@ == Map::<Seq<char>, ResourceModel>::empty().insert(
            "java"@,
            ResourceModel::File {
                repo_location: None,
                file: FileModel {
                    url: url@,
                    name: "jdk"@,
                    sha256: Some(sha256@),
                    sha512: None,
                    proxy: None,
                    archive: true,
                    executable: false,
                },
            },
        ),
        r.env matches Some(em) && em@ == Map::<Seq<char>, Seq<char>>::empty().insert(
            "JAVA_HOME"@,
            "${java}/jdk/"@ + release_name@,
        ),
        r.path@ == seq!["${java}/jdk/"@ + release_name@ + "/bin"@],
{
    let file = archive_file(url, String::from_str("jdk"), Some(sha256), None);
    let mut resources: StrMap<Resource> = StrMap::new();
    resources.insert(String::from_str("java"), Resource::File { repo_location: None, file });
    let mut home = String::from_str("${java}/jdk/");
    home.append(release_name.as_str());
    let mut env: StrMap<InterpolableString> = StrMap::new();
    let mut bin = home.clone();
    bin.append("/bin");
    env.insert(String::from_str("JAVA_HOME"), InterpolableString::new(home));
    let path = PathEnv(vec![InterpolableString::new(bin)]);
    let r = Environment { resources: Some(resources), env: Some(env), path };
    proof {
        assert(r.path@ =~= seq!["${java}/jdk/"@ + release_name@ + "/bin"@]);
    }
    r
}

/// The URL one Maven release is fetched from.
pub open spec fn maven_url_model(v: Seq<char>) -> Seq<char> {
    "https://repo1.maven.org/maven2/org/apache/maven/apache-maven/"@ + v + "/apache-maven-"@ + v
        + "-bin.zip"@
}

/// The shell bundle that installs one Maven release.
pub fn maven_environment(version: &String, sha512: String) -> (r: Environment)
    ensures
        r.wf(),
        r.resources matches Some(rm) && rm@ == Map::<Seq<char>, ResourceModel>::empty().insert(
            "maven"@,
            ResourceModel::File {
                repo_location: None,
                file: FileModel {
                    url: maven_url_model(version@),
                    name: "mvn"@,
                    sha256: None,
                    sha512: Some(sha512@),
                    proxy: None,
                    archive: true,
                    executable: false,
                },
            },
        ),
        r.env is None,
        r.path@ == seq!["${maven}/mvn/apache-maven-"@ + version@ + "/bin"@],
{
    let mut url = String::from_str("https://repo1.maven.org/maven2/org/apache/maven/apache-maven/");
    url.append(version.as_str());
    url.append("/apache-maven-");
    url.append(version.as_str());
    url.append("-bin.zip");
    let file = archive_file(url, String::from_str("mvn"), None, Some(sha512));
    let mut resources: StrMap<Resource> = StrMap::new();
    resources.insert(String::from_str("maven"), Resource::File { repo_location: None, file });
    let mut bin = String::from_str("${maven}/mvn/apache-maven-");
    bin.append(version.as_str());
    bin.append("/bin");
    let path = PathEnv(vec![InterpolableString::new(bin)]);
    let r = Environment { resources: Some(resources), env: None, path };
    proof {
        assert(r.path@ =~= seq!["${maven}/mvn/apache-maven-"@ + version@ + "/bin"@]);
    }
    r
}

/// The URL one sbt release is fetched from.
pub open spec fn sbt_url_model(v: Seq<char>) -> Seq<char> {
    "https://github.com/sbt/sbt/releases/download/v"@ + v + "/sbt-"@ + v + ".zip"@
}

/// The shell bundle that installs one sbt release.
pub fn sbt_environment(version: &String, sha256: String) -> (r: Environment)
    ensures
        r.wf(),
        r.resources matches Some(rm) && rm@ == Map::<Seq<char>, ResourceModel>::empty().insert(
            "sbt"@,
            ResourceModel::File {
                repo_location: None,
                file: FileModel {
                    url: sbt_url_model(version@),
                    name: "sbt"@,
                    sha256: Some(sha256@),
                    sha512: None,
                    proxy: None,
                    archive: true,
                    executable: false,
                },
            },
        ),
        r.env is None,
        r.path@ == seq!["${sbt}/sbt/sbt/bin"@],
{
    let mut url = String::from_str("https://github.com/sbt/sbt/releases/download/v");
    url.append(version.as_str());
    url.append("/sbt-");
    url.append(version.as_str());
    url.append(".zip");
    let file = archive_file(url, String::from_str("sbt"), Some(sha256), None);
    let mut resources: StrMap<Resource> = StrMap::new();
    resources.insert(String::from_str("sbt"), Resource::File { repo_location: None, file });
    let path = PathEnv(vec![InterpolableString::new(String::from_str("${sbt}/sbt/sbt/bin"))]);
    let r = Environment { resources: Some(resources), env: None, path };
    proof {
        assert(r.path@ =~= seq!["${sbt}/sbt/sbt/bin"@]);
    }
    r
}

/// The URL one Go release is fetched from, by platform.
pub open spec fn go_url_model(v: Seq<char>, os: Os) -> Seq<char> {
    if os == Os::Linux {
        "https://go.dev/dl/"@ + v + ".linux-amd64.tar.gz"@
    } else if os == Os::MacOS {
        "https://go.dev/dl/"@ + v + ".darwin-amd64.tar.gz"@
    } else {
        "https://go.dev/dl/"@ + v + ".windows-amd64.zip"@
    }
}

/// The shell bundle that installs one Go release: the `go` resource, a
/// `GOROOT` into the extracted tree, and its `bin` on the path.
pub fn go_environment(version: &String, sha256: String, os: &Os) -> (r: Environment)
    ensures
        r.wf(),
        r.resources matches Some(rm) && rm@ == Map::<Seq<char>, ResourceModel>::empty().insert(
            "go"@,
            ResourceModel::File {
                repo_location: None,
                file: FileModel {
                    url: go_url_model(version@, *os),
                    name: "go"@,
                    sha256: Some(sha256@),
                    sha512: None,
                    proxy: None,
                    archive: true,
                    executable: false,
                },
            },
        ),
        r.env matches Some(em) && em@ == Map::<Seq<char>, Seq<char>>::empty().insert(
            "GOROOT"@,
            "${go}/go/go"@,
        ),
        r.path@ == seq!["${go}/go/go/bin"@],
{
    let mut url = String::from_str("https://go.dev/dl/");
    url.append(version.as_str());
    match os {
        Os::Linux => url.append(".linux-amd64.tar.gz"),
        Os::MacOS => url.append(".darwin-amd64.tar.gz"),
        Os::Windows => url.append(".windows-amd64.zip"),
    }
    let file = archive_file(url, String::from_str("go"), Some(sha256), None);
    let mut resources: StrMap<Resource> = StrMap::new();
    resources.insert(String::from_str("go"), Resource::File { repo_location: None, file });
    let mut env: StrMap<InterpolableString> = StrMap::new();
    env.insert(
        String::from_str("GOROOT"),
        InterpolableString::new(String::from_str("${go}/go/go")),
    );
    let path = PathEnv(vec![InterpolableString::new(String::from_str("${go}/go/go/bin"))]);
    let r = Environment { resources: Some(resources), env: Some(env), path };
    proof {
        assert(r.path@ =~= seq!["${go}/go/go/bin"@]);
    }
    r
}

/// The platform name Node.js builds carry in their file names.
pub open spec fn node_os_model(os: Os) -> Seq<char> {
    if os == Os::Linux {
        "linux"@
    } else if os == Os::MacOS {
        "darwin"@
    } else {
        "win"@
    }
}

/// The archive format Node.js builds use, by platform.
pub open spec fn node_fmt_model(os: Os) -> Seq<char> {
    if os == Os::Windows {
        "zip"@
    } else {
        "tar.xz"@
    }
}

/// The URL one Node.js release is fetched from, by platform.
pub open spec fn node_url_model(v: Seq<char>, os: Os) -> Seq<char> {
    "https://nodejs.org/dist/"@ + v + "/node-"@ + v + "-"@ + node_os_model(os) + "-x64."@
        + node_fmt_model(os)
}

/// The extracted tree of one Node.js release, by platform.
pub open spec fn node_home_model(v: Seq<char>, os: Os) -> Seq<char> {
    "${node}/node/node-"@ + v + "-"@ + node_os_model(os) + "-x64"@
}

/// The shell bundle that installs one Node.js release.
pub fn node_environment(version: &String, sha256: String, os: &Os) -> (r: Environment)
    ensures
        r.wf(),
        r.resources matches Some(rm) && rm@ == Map::<Seq<char>, ResourceModel>::empty().insert(
            "node"@,
            ResourceModel::File {
                repo_location: None,
                file: FileModel {
                    url: node_url_model(version@, *os),
                    name: "node"@,
                    sha256: Some(sha256@),
                    sha512: None,
                    proxy: None,
                    archive: true,
                    executable: false,
                },
            },
        ),
        r.env matches Some(em) && em@ == Map::<Seq<char>, Seq<char>>::empty().insert(
            "NODE_HOME"@,
            node_home_model(version@, *os),
        ),
        r.path@ == seq![node_home_model(version@, *os) + "/bin"@],
{
    let os_str: &'static str = match os {
        Os::Linux => "linux",
        Os::MacOS => "darwin",
        Os::Windows => "win",
    };
    let fmt: &'static str = match os {
        Os::Windows => "zip",
        _ => "tar.xz",
    };
    let mut url = String::from_str("https://nodejs.org/dist/");
    url.append(version.as_str());
    url.append("/node-");
    url.append(version.as_str());
    url.append("-");
    url.append(os_str);
    url.append("-x64.");
    url.append(fmt);
    let file = archive_file(url, String::from_str("node"), Some(sha256), None);
    let mut resources: StrMap<Resource> = StrMap::new();
    resources.insert(String::from_str("node"), Resource::File { repo_location: None, file });
    let mut home = String::from_str("${node}/node/node-");
    home.append(version.as_str());
    home.append("-");
    home.append(os_str);
    home.append("-x64");
    let mut bin = home.clone();
    bin.append("/bin");
    let mut env: StrMap<InterpolableString> = StrMap::new();
    env.insert(String::from_str("NODE_HOME"), InterpolableString::new(home));
    let path = PathEnv(vec![InterpolableString::new(bin)]);
    let r = Environment { resources: Some(resources), env: Some(env), path };
    proof {
        assert(r.path@ =~= seq![node_home_model(version@, *os) + "/bin"@]);
    }
    r
}

/// The URL one Python release is fetched from, by platform; builds are
/// published for Linux and Windows only.
pub open spec fn python_url_model(v: Seq<char>, os: Os) -> Seq<char> {
    if os == Os::Linux {
        "https://www.python.org/ftp/python/"@ + v + "/Python-"@ + v + ".tar.xz"@
    } else {
        "https://www.python.org/ftp/python/"@ + v + "/python-"@ + v + "-embed-amd64.zip"@
    }
}

/// The shell bundle that installs one Python release.
pub fn python_environment(version: &String, sha256: String, os: &Os) -> (r: Environment)
    requires
        *os != Os::MacOS,
    ensures
        r.wf(),
        r.resources matches Some(rm) && rm@ == Map::<Seq<char>, ResourceModel>::empty().insert(
            "python"@,
            ResourceModel::File {
                repo_location: None,
                file: FileModel {
                    url: python_url_model(version@, *os),
                    name: "python"@,
                    sha256: Some(sha256@),
                    sha512: None,
                    proxy: None,
                    archive: true,
                    executable: false,
                },
            },
        ),
        r.env matches Some(em) && em@ == Map::<Seq<char>, Seq<char>>::empty().insert(
            "PYTHON_HOME"@,
            "${python}/python"@,
        ),
        r.path@ == seq!["${python}/python/bin"@],
{
    let mut url = String::from_str("https://www.python.org/ftp/python/");
    url.append(version.as_str());
    match os {
        Os::Linux => {
            url.append("/Python-");
            url.append(version.as_str());
            url.append(".tar.xz");
        },
        _ => {
            url.append("/python-");
            url.append(version.as_str());
            url.append("-embed-amd64.zip");
        },
    }
    let file = archive_file(url, String::from_str("python"), Some(sha256), None);
    let mut resources: StrMap<Resource> = StrMap::new();
    resources.insert(String::from_str("python"), Resource::File { repo_location: None, file });
    let mut env: StrMap<InterpolableString> = StrMap::new();
    env.insert(
        String::from_str("PYTHON_HOME"),
        InterpolableString::new(String::from_str("${python}/python")),
    );
    let path = PathEnv(vec![InterpolableString::new(String::from_str("${python}/python/bin"))]);
    let r = Environment { resources: Some(resources), env: Some(env), path };
    proof {
        assert(r.path@ =~= seq!["${python}/python/bin"@]);
    }
    r
}

/// Whether a release object is marked stable (its `stable` field is `true`).
pub open spec fn go_stable(m: ValModel) -> bool {
    query_step(m, "stable"@) == Some(ValModel::Bool(true))
}

fn is_go_stable(v: &Value) -> (r: bool)
    ensures
        r == go_stable(v@),
{
    let key = String::from_str("stable");
    match v.step(&key) {
        Some(x) => match x {
            Value::Bool(b) => *b,
            _ => false,
        },
        None => false,
    }
}

/// The first stable release in the list, in the order given.
pub fn find_stable<'a>(versions: &'a Vec<Value>) -> (r: Option<&'a Value>)
    ensures
        match r {
            Some(v) => go_stable(v@) && exists|j: int|
                0 <= j < versions@.len() && arr_model(versions@)[j] == v@ && (forall|k: int|
                    0 <= k < j ==> !go_stable(#[trigger] arr_model(versions@)[k])),
            None => forall|k: int|
                0 <= k < versions@.len() ==> !go_stable(#[trigger] arr_model(versions@)[k]),
        },
{
    let n = versions.len();
    let mut i: usize = 0;
    while i < n
        invariant
            i <= n,
            n == versions@.len(),
            forall|k: int| 0 <= k < i ==> !go_stable(#[trigger] arr_model(versions@)[k]),
        decreases n - i,
    {
        if is_go_stable(&versions[i]) {
            proof {
                assert(arr_model(versions@)[i as int] == versions[i as int]@);
            }
            return Some(&versions[i]);
        }
        proof {
            assert(arr_model(versions@)[i as int] == versions[i as int]@);
        }
        i += 1;
    }
    None
}

/// Whether a release object is a long-term-support one: its `lts` field is
/// `true` or any string (the codename); `false` or anything else is not.
pub open spec fn node_lts(m: ValModel) -> bool {
    match query_step(m, "lts"@) {
        Some(x) => match x {
            ValModel::Bool(b) => b,
            ValModel::Str(_) => true,
            _ => false,
        },
        None => false,
    }
}

fn is_node_lts(v: &Value) -> (r: bool)
    ensures
        r == node_lts(v@),
{
    let key = String::from_str("lts");
    match v.step(&key) {
        Some(x) => match x {
            Value::Bool(b) => *b,
            Value::Str(_) => true,
            _ => false,
        },
        None => false,
    }
}

/// The first long-term-support release in the list, in the order given.
pub fn find_lts<'a>(versions: &'a Vec<Value>) -> (r: Option<&'a Value>)
    ensures
        match r {
            Some(v) => node_lts(v@) && exists|j: int|
                0 <= j < versions@.len() && arr_model(versions@)[j] == v@ && (forall|k: int|
                    0 <= k < j ==> !node_lts(#[trigger] arr_model(versions@)[k])),
            None => forall|k: int|
                0 <= k < versions@.len() ==> !node_lts(#[trigger] arr_model(versions@)[k]),
        },
{
    let n = versions.len();
    let mut i: usize = 0;
    while i < n
        invariant
            i <= n,
            n == versions@.len(),
            forall|k: int| 0 <= k < i ==> !node_lts(#[trigger] arr_model(versions@)[k]),
        decreases n - i,
    {
        if is_node_lts(&versions[i]) {
            proof {
                assert(arr_model(versions@)[i as int] == versions[i as int]@);
            }
            return Some(&versions[i]);
        }
        proof {
            assert(arr_model(versions@)[i as int] == versions[i as int]@);
        }
        i += 1;
    }
    None
}

/// Lexicographic order on text by code point, which for UTF-8 agrees with
/// byte order.
pub open spec fn lex_le(a: Seq<char>, b: Seq<char>) -> bool
    decreases a.len(),
{
    if a.len() == 0 {
        true
    } else if b.len() == 0 {
        false
    } else if (a[0] as u32) < (b[0] as u32) {
        true
    } else if (a[0] as u32) > (b[0] as u32) {
        false
    } else {
        lex_le(a.drop_first(), b.drop_first())
    }
}

proof fn lemma_lex_refl(a: Seq<char>)
    ensures
        lex_le(a, a),
    decreases a.len(),
{
    if a.len() > 0 {
        lemma_lex_refl(a.drop_first());
    }
}

proof fn lemma_lex_total(a: Seq<char>, b: Seq<char>)
    ensures
        lex_le(a, b) || lex_le(b, a),
    decreases a.len(),
{
    if a.len() > 0 && b.len() > 0 && (a[0] as u32) == (b[0] as u32) {
        lemma_lex_total(a.drop_first(), b.drop_first());
    }
}

proof fn lemma_lex_trans(a: Seq<char>, b: Seq<char>, c: Seq<char>)
    requires
        lex_le(a, b),
        lex_le(b, c),
    ensures
        lex_le(a, c),
    decreases a.len(),
{
    if a.len() > 0 && b.len() > 0 && c.len() > 0 && !((a[0] as u32) < (c[0] as u32)) && !((
    a[0] as u32) > (c[0] as u32)) {
        lemma_lex_trans(a.drop_first(), b.drop_first(), c.drop_first());
    }
}

/// Whether `a` comes no later than `b` lexicographically.
pub fn str_lex_le(a: &str, b: &str) -> (r: bool)
    ensures
        r == lex_le(a@, b@),
{
    let alen = a.unicode_len();
    let blen = b.unicode_len();
    let mut i: usize = 0;
    proof {
        assert(a@.subrange(0, alen as int) =~= a@);
        assert(b@.subrange(0, blen as int) =~= b@);
    }
    while i < alen && i < blen
        invariant
            i <= alen,
            i <= blen,
            alen == a@.len(),
            blen == b@.len(),
            lex_le(a@, b@) == lex_le(
                a@.subrange(i as int, alen as int),
                b@.subrange(i as int, blen as int),
            ),
        decreases alen - i,
    {
        let ca = a.get_char(i);
        let cb = b.get_char(i);
        let ghost suba = a@.subrange(i as int, alen as int);
        let ghost subb = b@.subrange(i as int, blen as int);
        if (ca as u32) < (cb as u32) {
            proof {
                assert(suba[0] == ca && subb[0] == cb);
            }
            return true;
        }
        if (ca as u32) > (cb as u32) {
            proof {
                assert(suba[0] == ca && subb[0] == cb);
            }
            return false;
        }
        proof {
            assert(suba[0] == ca && subb[0] == cb);
            assert(suba.drop_first() =~= a@.subrange(i + 1 as int, alen as int));
            assert(subb.drop_first() =~= b@.subrange(i + 1 as int, blen as int));
        }
        i += 1;
    }
    proof {
        assert(a@.subrange(i as int, alen as int).len() == alen - i);
        assert(b@.subrange(i as int, blen as int).len() == blen - i);
    }
    i >= alen
}

/// Whether a release object is published (its `is_published` field is
/// `true`).
pub open spec fn py_published(m: ValModel) -> bool {
    query_step(m, "is_published"@) == Some(ValModel::Bool(true))
}

/// The date key a release is ranked by: its `release_date` string, when it is
/// one; an absent or non-string date ranks below every present one.
pub open spec fn py_date(m: ValModel) -> Option<Seq<char>> {
    match query_step(m, "release_date"@) {
        Some(x) => match x {
            ValModel::Str(s) => Some(s),
            _ => None,
        },
        _ => None,
    }
}

pub open spec fn opt_date_le(a: Option<Seq<char>>, b: Option<Seq<char>>) -> bool {
    match (a, b) {
        (Option::<Seq<char>>::None, _) => true,
        (Some(_), Option::<Seq<char>>::None) => false,
        (Some(x), Some(y)) => lex_le(x, y),
    }
}

fn is_py_published(v: &Value) -> (r: bool)
    ensures
        r == py_published(v@),
{
    let key = String::from_str("is_published");
    match v.step(&key) {
        Some(x) => match x {
            Value::Bool(b) => *b,
            _ => false,
        },
        None => false,
    }
}

fn py_date_exec<'a>(v: &'a Value) -> (r: Option<&'a String>)
    ensures
        match r {
            Some(s) => py_date(v@) == Some(s@),
            None => py_date(v@) is None,
        },
{
    let key = String::from_str("release_date");
    match v.step(&key) {
        Some(x) => match x {
            Value::Str(s) => Some(s),
            _ => None,
        },
        None => None,
    }
}

fn py_date_le(a: &Value, b: &Value) -> (r: bool)
    ensures
        r == opt_date_le(py_date(a@), py_date(b@)),
{
    match (py_date_exec(a), py_date_exec(b)) {
        (None, _) => true,
        (Some(_), None) => false,
        (Some(x), Some(y)) => str_lex_le(x.as_str(), y.as_str()),
    }
}

/// The published release with the greatest date; on equal dates the later
/// entry wins, as an iterator maximum does.
pub fn latest_published<'a>(versions: &'a Vec<Value>) -> (r: Option<&'a Value>)
    ensures
        match r {
            Some(v) => py_published(v@) && exists|j: int|
                0 <= j < versions@.len() && arr_model(versions@)[j] == v@ && (forall|k: int|
                    0 <= k < versions@.len() && py_published(#[trigger] arr_model(versions@)[k])
                        ==> opt_date_le(py_date(arr_model(versions@)[k]), py_date(v@))) && (
                forall|k: int|
                    j < k < versions@.len() && py_published(#[trigger] arr_model(versions@)[k])
                        ==> !opt_date_le(py_date(v@), py_date(arr_model(versions@)[k]))),
            None => forall|k: int|
                0 <= k < versions@.len() ==> !py_published(#[trigger] arr_model(versions@)[k]),
        },
{
    let n = versions.len();
    let mut best: Option<usize> = None;
    let mut i: usize = 0;
    while i < n
        invariant
            i <= n,
            n == versions@.len(),
            match best {
                Some(b) => {
                    &&& b < i
                    &&& py_published(arr_model(versions@)[b as int])
                    &&& forall|k: int|
                        0 <= k < i && py_published(#[trigger] arr_model(versions@)[k])
                            ==> opt_date_le(
                            py_date(arr_model(versions@)[k]),
                            py_date(arr_model(versions@)[b as int]),
                        )
                    &&& forall|k: int|
                        b < k < i && py_published(#[trigger] arr_model(versions@)[k])
                            ==> !opt_date_le(
                            py_date(arr_model(versions@)[b as int]),
                            py_date(arr_model(versions@)[k]),
                        )
                },
                None => forall|k: int|
                    0 <= k < i ==> !py_published(#[trigger] arr_model(versions@)[k]),
            },
        decreases n - i,
    {
        proof {
            assert(arr_model(versions@)[i as int] == versions[i as int]@);
        }
        if is_py_published(&versions[i]) {
            let replace: bool = match best {
                None => true,
                Some(b) => py_date_le(&versions[b], &versions[i]),
            };
            if replace {
                proof {
                    match py_date(arr_model(versions@)[i as int]) {
                        Some(z) => {
                            lemma_lex_refl(z);
                        },
                        None => {},
                    }
                    match best {
                        Some(b) => {
                            let bm = arr_model(versions@)[b as int];
                            let im = arr_model(versions@)[i as int];
                            assert forall|k: int|
                                0 <= k < i + 1 && py_published(
                                    #[trigger] arr_model(versions@)[k],
                                ) implies opt_date_le(py_date(arr_model(versions@)[k]), py_date(im)) by {
                                if k < i {
                                    let km = arr_model(versions@)[k];
                                    assert(opt_date_le(py_date(km), py_date(bm)));
                                    match (py_date(km), py_date(bm), py_date(im)) {
                                        (Some(x), Some(y), Some(z)) => {
                                            lemma_lex_trans(x, y, z);
                                        },
                                        _ => {},
                                    }
                                } else {
                                    match py_date(im) {
                                        Some(z) => {
                                            lemma_lex_refl(z);
                                        },
                                        None => {},
                                    }
                                }
                            }
                        },
                        None => {},
                    }
                }
                best = Some(i);
            } else {
                proof {
                    match best {
                        Some(b) => {
                            let bm = arr_model(versions@)[b as int];
                            let im = arr_model(versions@)[i as int];
                            match (py_date(bm), py_date(im)) {
                                (Some(x), Some(y)) => {
                                    lemma_lex_total(x, y);
                                },
                                _ => {},
                            }
                        },
                        None => {},
                    }
                }
            }
        }
        i += 1;
    }
    match best {
        Some(b) => Some(&versions[b]),
        None => None,
    }
}

/// Whether a build object is for the given platform and architecture.
pub open spec fn build_matches(m: ValModel, os_name: Seq<char>, arch: Seq<char>) -> bool {
    &&& query_step(m, "os"@) == Some(ValModel::Str(os_name))
    &&& query_step(m, "arch"@) == Some(ValModel::Str(arch))
}

fn is_build_for(v: &Value, os_name: &String, arch: &String) -> (r: bool)
    ensures
        r == build_matches(v@, os_name@, arch@),
{
    let os_key = String::from_str("os");
    let arch_key = String::from_str("arch");
    let os_ok = match v.step(&os_key) {
        Some(x) => match x {
            Value::Str(s) => s.eq(os_name),
            _ => false,
        },
        None => false,
    };
    if !os_ok {
        return false;
    }
    match v.step(&arch_key) {
        Some(x) => match x {
            Value::Str(s) => s.eq(arch),
            _ => false,
        },
        None => false,
    }
}

/// The first build in the list published for the given platform and
/// architecture.
pub fn find_build<'a>(files: &'a Vec<Value>, os_name: &String, arch: &String) -> (r: Option<
    &'a Value,
>)
    ensures
        match r {
            Some(v) => build_matches(v@, os_name@, arch@) && exists|j: int|
                0 <= j < files@.len() && arr_model(files@)[j] == v@ && (forall|k: int|
                    0 <= k < j ==> !build_matches(
                        #[trigger] arr_model(files@)[k],
                        os_name@,
                        arch@,
                    )),
            None => forall|k: int|
                0 <= k < files@.len() ==> !build_matches(
                    #[trigger] arr_model(files@)[k],
                    os_name@,
                    arch@,
                ),
        },
{
    let n = files.len();
    let mut i: usize = 0;
    while i < n
        invariant
            i <= n,
            n == files@.len(),
            forall|k: int|
                0 <= k < i ==> !build_matches(#[trigger] arr_model(files@)[k], os_name@, arch@),
        decreases n - i,
    {
        proof {
            assert(arr_model(files@)[i as int] == files[i as int]@);
        }
        if is_build_for(&files[i], os_name, arch) {
            return Some(&files[i]);
        }
        i += 1;
    }
    None
}

/// The digest on the first checksum line that names the artifact: the line's
/// first word, in a `<digest> <name>`-per-line listing.
pub fn sha_for_artifact(text: &str, name: &str) -> (r: Option<String>)
    ensures
        match r {
            Some(w) => exists|j: int|
                {
                    &&& 0 <= j < split_on(text@, '\n').len()
                    &&& contains_sub(#[trigger] split_on(text@, '\n')[j], name@)
                    &&& w@ == split_on(split_on(text@, '\n')[j], ' ')[0]
                    &&& forall|k: int|
                        0 <= k < j ==> !contains_sub(#[trigger] split_on(text@, '\n')[k], name@)
                },
            None => forall|k: int|
                0 <= k < split_on(text@, '\n').len() ==> !contains_sub(
                    #[trigger] split_on(text@, '\n')[k],
                    name@,
                ),
        },
{
    let lines = split_on_exec(text, '\n');
    let n = lines.len();
    let mut i: usize = 0;
    while i < n
        invariant
            i <= n,
            n == lines@.len(),
            lines.deep_view() == split_on(text@, '\n'),
            forall|k: int|
                0 <= k < i ==> !contains_sub(#[trigger] split_on(text@, '\n')[k], name@),
        decreases n - i,
    {
        if str_contains(lines[i].as_str(), name) {
            proof {
                assert(split_on(text@, '\n')[i as int] == lines[i as int]@);
            }
            return Some(first_word(lines[i].as_str()));
        }
        proof {
            assert(split_on(text@, '\n')[i as int] == lines[i as int]@);
        }
        i += 1;
    }
    None
}

} // verus!
