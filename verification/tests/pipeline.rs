use chenv::acquire::on_bytes;
use chenv::acquire::on_exists;
use chenv::acquire::on_materialized;
use chenv::acquire::plan_acquire;
use chenv::acquire::AcquireOutcome;
use chenv::acquire::AcquireStep;
use chenv::acquire::MaterializeEvent;
use chenv::errors::ChenvError;
use chenv::interpol::Env;
use chenv::interpol::InterpolableString;
use chenv::resource::File;
use chenv::resource::Resource;

const ABC_SHA256: &str = "ba7816bf8f01cfea414140de5dae2223b00361a396177a9cb410ff61f20015ad";

fn sample_file(url: &str, sha256: Option<&str>, sha512: Option<&str>, archive: bool) -> File {
    File {
        url: InterpolableString::new(url.to_string()),
        name: "tool".to_string(),
        sha256: sha256.map(|s| s.to_string()),
        sha512: sha512.map(|s| s.to_string()),
        proxy: None,
        archive,
        executable: false,
    }
}

#[test]
fn plan_requires_exactly_one_hash() {
    let both = sample_file("https://x/y", Some(ABC_SHA256), Some(ABC_SHA256), false);
    assert!(matches!(
        plan_acquire(&both, "/store"),
        Err(ChenvError::Config(_))
    ));
    let neither = sample_file("https://x/y", None, None, false);
    assert!(matches!(
        plan_acquire(&neither, "/store"),
        Err(ChenvError::Config(_))
    ));
}

#[test]
fn plan_keys_store_by_hash_prefix() {
    let f = sample_file("https://x/y", Some(ABC_SHA256), None, false);
    let plan = plan_acquire(&f, "/store").unwrap();
    assert_eq!(plan.output_dir, "/store/ba7816bf8f01cfea");
    assert_eq!(plan.output_file, "/store/ba7816bf8f01cfea/tool");
}

#[test]
fn cache_hit_finishes_without_any_step() {
    // Resolving a resource whose output file already exists performs no
    // network step and returns the same substrate every time.
    let f = sample_file("https://example.org/tool.bin", Some(ABC_SHA256), None, false);
    let plan = plan_acquire(&f, "/store").unwrap();
    let ctx = Env::new();
    let first = on_exists(&plan, &ctx, true);
    let second = on_exists(&plan, &ctx, true);
    match (&first, &second) {
        (AcquireOutcome::Done(a), AcquireOutcome::Done(b)) => {
            assert_eq!(a.to_string(), "/store/ba7816bf8f01cfea");
            assert_eq!(a.to_string(), b.to_string());
        }
        _ => panic!("a cache hit must finish the acquisition"),
    }
}

#[test]
fn missing_output_dispatches_by_scheme() {
    let f = sample_file("https://example.org/tool.bin", Some(ABC_SHA256), None, false);
    let plan = plan_acquire(&f, "/store").unwrap();
    let ctx = Env::new();
    match on_exists(&plan, &ctx, false) {
        AcquireOutcome::Next(AcquireStep::Download { url, proxy }) => {
            assert_eq!(url, "https://example.org/tool.bin");
            assert!(proxy.is_none());
        }
        _ => panic!("an https URL must be downloaded"),
    }

    let local = sample_file("file:///tmp/tool.bin", Some(ABC_SHA256), None, false);
    let plan = plan_acquire(&local, "/store").unwrap();
    match on_exists(&plan, &ctx, false) {
        AcquireOutcome::Next(AcquireStep::ReadLocal { path }) => {
            assert_eq!(path, "/tmp/tool.bin");
        }
        _ => panic!("a file URL must be read locally"),
    }

    let odd = sample_file("ftp://example.org/tool.bin", Some(ABC_SHA256), None, false);
    let plan = plan_acquire(&odd, "/store").unwrap();
    match on_exists(&plan, &ctx, false) {
        AcquireOutcome::Failed(ChenvError::UnsupportedScheme(s)) => assert_eq!(s, "ftp"),
        _ => panic!("an unknown scheme must be refused"),
    }

    let junk = sample_file("not a url at all", Some(ABC_SHA256), None, false);
    let plan = plan_acquire(&junk, "/store").unwrap();
    assert!(matches!(
        on_exists(&plan, &ctx, false),
        AcquireOutcome::Failed(ChenvError::UnsupportedScheme(_))
    ));
}

#[test]
fn url_template_is_interpolated_against_context() {
    let f = sample_file("${mirror}/tool.bin", Some(ABC_SHA256), None, false);
    let plan = plan_acquire(&f, "/store").unwrap();
    let mut ctx = Env::new();
    ctx.insert(
        "mirror".to_string(),
        chenv::substrate::Substrate::new("https://mirror.test".to_string()),
    );
    match on_exists(&plan, &ctx, false) {
        AcquireOutcome::Next(AcquireStep::Download { url, .. }) => {
            assert_eq!(url, "https://mirror.test/tool.bin");
        }
        _ => panic!("the templated URL must resolve through the context"),
    }
    let empty = Env::new();
    assert!(matches!(
        on_exists(&plan, &empty, false),
        AcquireOutcome::Failed(ChenvError::MissingVariable(_))
    ));
}

#[test]
fn integrity_mismatch_fails_without_placement() {
    // Bytes whose sha-256 differs from the declaration: the transition fails
    // and emits no placement or extraction step, so nothing reaches the
    // output path.
    let f = sample_file("https://x/y", Some(ABC_SHA256), None, false);
    let plan = plan_acquire(&f, "/store").unwrap();
    let bytes = b"not abc".to_vec();
    match on_bytes(&plan, &"https://x/y".to_string(), &bytes) {
        AcquireOutcome::Failed(ChenvError::IntegrityMismatch {
            url,
            computed,
            expected,
        }) => {
            assert_eq!(url, "https://x/y");
            assert_eq!(expected, ABC_SHA256);
            assert_ne!(computed, ABC_SHA256);
            assert_eq!(computed.len(), 64);
        }
        _ => panic!("mismatching bytes must fail with the mismatch"),
    }
}

#[test]
fn matching_bytes_are_placed_or_extracted() {
    let f = sample_file("https://x/y", Some(ABC_SHA256), None, false);
    let plan = plan_acquire(&f, "/store").unwrap();
    let bytes = b"abc".to_vec();
    match on_bytes(&plan, &"https://x/y".to_string(), &bytes) {
        AcquireOutcome::Next(AcquireStep::Place {
            dir,
            dest,
            executable,
        }) => {
            assert_eq!(dir, "/store/ba7816bf8f01cfea");
            assert_eq!(dest, "/store/ba7816bf8f01cfea/tool");
            assert!(!executable);
        }
        _ => panic!("matching bytes of a plain file must be placed"),
    }

    let arch = sample_file("https://x/y", Some(ABC_SHA256), None, true);
    let plan = plan_acquire(&arch, "/store").unwrap();
    match on_bytes(&plan, &"https://x/y".to_string(), &bytes) {
        AcquireOutcome::Next(AcquireStep::Extract { dir, dest }) => {
            assert_eq!(dir, "/store/ba7816bf8f01cfea");
            assert_eq!(dest, "/store/ba7816bf8f01cfea/tool");
        }
        _ => panic!("matching bytes of an archive must be extracted"),
    }
}

#[test]
fn sha512_declaration_is_honoured() {
    // sha-512 of "abc".
    let digest = "ddaf35a193617abacc417349ae20413112e6fa4e89a97ea20a9eeee64b55d39a\
2192992a274fc1a836ba3c23a3feebbd454d4423643ce80e2a9ac94fa54ca49f";
    let f = sample_file("https://x/y", None, Some(digest), false);
    let plan = plan_acquire(&f, "/store").unwrap();
    assert_eq!(plan.output_dir, "/store/ddaf35a193617aba");
    let bytes = b"abc".to_vec();
    assert!(matches!(
        on_bytes(&plan, &"https://x/y".to_string(), &bytes),
        AcquireOutcome::Next(AcquireStep::Place { .. })
    ));
    let wrong = b"abcd".to_vec();
    assert!(matches!(
        on_bytes(&plan, &"https://x/y".to_string(), &wrong),
        AcquireOutcome::Failed(ChenvError::IntegrityMismatch { .. })
    ));
}

#[test]
fn digest_matches_compares_hashed_bytes() {
    let bytes = b"abc".to_vec();
    assert!(chenv::acquire::digest_matches(
        &chenv::acquire::HashKind::Sha256,
        &bytes,
        &ABC_SHA256.to_string()
    ));
    assert!(!chenv::acquire::digest_matches(
        &chenv::acquire::HashKind::Sha256,
        &bytes,
        &"00".repeat(32)
    ));
}

#[test]
fn materialization_outcomes_map_to_errors() {
    let f = sample_file("https://x/y", Some(ABC_SHA256), None, true);
    let plan = plan_acquire(&f, "/store").unwrap();
    match on_materialized(&plan, MaterializeEvent::Completed) {
        AcquireOutcome::Done(s) => assert_eq!(s.to_string(), "/store/ba7816bf8f01cfea"),
        _ => panic!("a completed materialization must finish"),
    }
    assert!(matches!(
        on_materialized(&plan, MaterializeEvent::UnknownFormat("tar?".to_string())),
        AcquireOutcome::Failed(ChenvError::UnsupportedArchiveFormat(_))
    ));
    assert!(matches!(
        on_materialized(&plan, MaterializeEvent::Failure("disk full".to_string())),
        AcquireOutcome::Failed(ChenvError::Filesystem(_))
    ));
}

#[test]
fn resource_plan_uses_declared_or_default_store() {
    let f = sample_file("https://x/y", Some(ABC_SHA256), None, false);
    let r = Resource::File {
        repo_location: None,
        file: f,
    };
    let plan = r.plan("/repo").unwrap();
    assert_eq!(plan.output_dir, "/repo/./.chenv/ba7816bf8f01cfea");

    let f = sample_file("https://x/y", Some(ABC_SHA256), None, false);
    let r = Resource::File {
        repo_location: Some("/opt/store".to_string()),
        file: f,
    };
    let plan = r.plan("/repo").unwrap();
    assert_eq!(plan.output_dir, "/opt/store/ba7816bf8f01cfea");

    let f = sample_file("https://x/y", Some(ABC_SHA256), None, false);
    let r = Resource::File {
        repo_location: Some("cache".to_string()),
        file: f,
    };
    let plan = r.plan("/repo").unwrap();
    assert_eq!(plan.output_dir, "/repo/cache/ba7816bf8f01cfea");
}
