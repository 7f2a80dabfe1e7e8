use buildsys::args::{
    build_arg, build_secret, check_image_features, join_spaces, KitBuildArgs, PackageBuildArgs,
    TargetBuildArgs,
};
use buildsys::ident::{append_token, filename, push_dec, token};
use buildsys::orchestrator::{
    secrets_args, BuildCommonInputs, CommonBuildArgs, DockerBuild, OutputCleanup, PackageInputs,
    SecretFile, SecretsEnv, SecretsError,
};
use buildsys::BuildType;
use sha2::Digest;

fn strings(v: &[&str]) -> Vec<String> {
    v.iter().map(|s| s.to_string()).collect()
}

#[test]
fn build_arg_appends_one_pair() {
    let mut args: Vec<String> = Vec::new();
    build_arg(&mut args, "KEY", "a value");
    assert_eq!(args, strings(&["--build-arg", "KEY=a value"]));
}

#[test]
fn build_secret_appends_one_pair() {
    let mut args: Vec<String> = Vec::new();
    build_secret(&mut args, "file", "root.json", "/tmp/root.json");
    assert_eq!(args, strings(&["--secret", "type=file,id=root.json,src=/tmp/root.json"]));
}

#[test]
fn join_spaces_matches_expected() {
    assert_eq!(join_spaces(&strings(&["a", "b", "c"])), "a b c");
    assert_eq!(join_spaces(&strings(&[])), "");
    assert_eq!(join_spaces(&strings(&["one"])), "one");
}

#[test]
fn package_build_args_exact() {
    let p = PackageBuildArgs {
        package: "kernel".to_string(),
        package_dependencies: strings(&["glibc", "libz"]),
        kit_dependencies: strings(&["core-kit"]),
        external_kit_dependencies: strings(&[]),
        version_build: "abc123".to_string(),
        version_build_timestamp: "20240101".to_string(),
    };
    let args = p.build_args();
    assert_eq!(
        args,
        strings(&[
            "--build-arg",
            "KIT_DEPENDENCIES=core-kit",
            "--build-arg",
            "EXTERNAL_KIT_DEPENDENCIES=",
            "--build-arg",
            "PACKAGE=kernel",
            "--build-arg",
            "PACKAGE_DEPENDENCIES=glibc libz",
            "--build-arg",
            "BUILD_ID=abc123",
            "--build-arg",
            "BUILD_ID_TIMESTAMP=20240101",
        ])
    );
}

#[test]
fn kit_build_args_exact() {
    let k = KitBuildArgs {
        kit: "core-kit".to_string(),
        package_dependencies: strings(&["kernel"]),
        external_kit_metadata: "external-kit-metadata.json".to_string(),
        local_kits: strings(&["other-kit"]),
        vendor: "acme".to_string(),
        version_build: "b1".to_string(),
        version_id: "1.2.3".to_string(),
    };
    let t = TargetBuildArgs::Kit(k);
    assert_eq!(t.build_type(), BuildType::Kit);
    assert_eq!(
        t.build_args(),
        strings(&[
            "--build-arg",
            "KIT=core-kit",
            "--build-arg",
            "PACKAGE_DEPENDENCIES=kernel",
            "--build-arg",
            "BUILD_ID=b1",
            "--build-arg",
            "VERSION_ID=1.2.3",
            "--build-arg",
            "EXTERNAL_KIT_METADATA=external-kit-metadata.json",
            "--build-arg",
            "VENDOR=acme",
            "--build-arg",
            "LOCAL_KIT_DEPENDENCIES=other-kit",
        ])
    );
}

#[test]
fn token_is_a_digest_prefix() {
    let t = token("/home/user/project");
    let full = hex::encode(sha2::Sha512::digest("/home/user/project"));
    assert_eq!(t, full[..12].to_string());
    assert_eq!(t.len(), 12);
    assert_eq!(append_token("buildsys-pkg-foo-x86_64", "/home/user/project"),
        format!("buildsys-pkg-foo-x86_64-{}", t));
}

#[test]
fn filename_takes_the_last_component() {
    assert_eq!(filename("tools/variants/aws-dev"), "aws-dev");
    assert_eq!(filename("aws-dev"), "aws-dev");
    assert_eq!(filename("tools/variants/aws-dev/"), "aws-dev");
}

#[test]
fn image_features_must_be_fresh_keys() {
    let ok = vec!["GRUB_SET_PRIVATE_VAR".to_string(), "SYSTEMD_NETWORKD".to_string()];
    assert!(check_image_features(&ok));
    let dup = vec!["A".to_string(), "A".to_string()];
    assert!(!check_image_features(&dup));
    let clash = vec!["VARIANT".to_string()];
    assert!(!check_image_features(&clash));
}

#[test]
fn decimal_rendering_matches() {
    let mut s = String::new();
    push_dec(&mut s, 0);
    assert_eq!(s, "0");
    let mut s = String::new();
    push_dec(&mut s, 1234567890);
    assert_eq!(s, "1234567890");
}

#[test]
fn secrets_args_assembles_everything() {
    let env = SecretsEnv {
        sbkeys: vec![SecretFile { id: "key.pem".to_string(), path: "/sb/key.pem".to_string() }],
        ca_bundle: "/ca/bundle.crt".to_string(),
        ca_bundle_exists: true,
        root_json: String::new(),
        root_json_exists: false,
    };
    let args = secrets_args(&env).unwrap();
    assert_eq!(
        args,
        strings(&[
            "--secret",
            "type=file,id=key.pem,src=/sb/key.pem",
            "--secret",
            "type=file,id=ca-bundle.crt,src=/ca/bundle.crt",
            "--secret",
            "type=env,id=aws-access-key-id.env,src=AWS_ACCESS_KEY_ID",
            "--secret",
            "type=env,id=aws-secret-access-key.env,src=AWS_SECRET_ACCESS_KEY",
            "--secret",
            "type=env,id=aws-session-token.env,src=AWS_SESSION_TOKEN",
        ])
    );
}

#[test]
fn secrets_args_rejects_missing_overrides() {
    let env = SecretsEnv {
        sbkeys: vec![],
        ca_bundle: "/missing".to_string(),
        ca_bundle_exists: false,
        root_json: String::new(),
        root_json_exists: false,
    };
    assert!(matches!(secrets_args(&env), Err(SecretsError::BadCaBundle)));
    let env = SecretsEnv {
        sbkeys: vec![],
        ca_bundle: String::new(),
        ca_bundle_exists: false,
        root_json: "/missing".to_string(),
        root_json_exists: false,
    };
    assert!(matches!(secrets_args(&env), Err(SecretsError::BadRootJson)));
}

fn common() -> BuildCommonInputs {
    BuildCommonInputs {
        root_dir: "/src/project".to_string(),
        tools_dir: "/src/project/tools".to_string(),
        sdk_image: "sdk:v1".to_string(),
        arch: "x86_64".to_string(),
        goarch: "amd64".to_string(),
        arch_segment: b"x86_64".to_vec(),
        state_dir: b"src/project/build/state".to_vec(),
        builder_uid: 1000,
    }
}

#[test]
fn package_build_is_assembled() {
    let b = DockerBuild::new_package(
        common(),
        PackageInputs {
            package: "kernel".to_string(),
            package_segment: b"kernel".to_vec(),
            package_dependencies: strings(&["glibc"]),
            kit_dependencies: strings(&[]),
            external_kit_dependencies: strings(&[]),
            version_build: "b1".to_string(),
            version_build_timestamp: "t1".to_string(),
            packages_dir: b"src/project/build/packages".to_vec(),
        },
    );
    let tok = token("/src/project");
    assert_eq!(b.target, "package");
    assert_eq!(b.dockerfile, "/src/project/tools/build.Dockerfile");
    assert_eq!(b.tag, format!("buildsys-pkg-kernel-x86_64-{}", tok));
    assert_eq!(
        b.artifacts_dirs,
        vec![b"src/project/build/packages/kernel".to_vec(), b"src/project/build/packages".to_vec()]
    );
    assert!(matches!(b.common_build_args.cleanup, OutputCleanup::BeforeBuild));
    assert!(b.clean_before_build());

    let rm = b.rm_image_command();
    assert_eq!(rm, strings(&["rmi", "--force", &b.tag]));
    let rmb = b.rm_bypass_command();
    assert_eq!(rmb, strings(&["rm", "--force", &format!("{}-bypass", b.tag)]));

    let cmd = b.build_command();
    assert_eq!(cmd[0], "build");
    assert_eq!(cmd[1], "/src/project");
    assert_eq!(cmd[2], "--target");
    assert_eq!(cmd[3], "package");
    assert!(cmd.contains(&format!("BYPASS_SOCKET={}-bypass", b.tag)));
    assert!(cmd.contains(&"BUILDER_UID=1000".to_string()));
    assert!(cmd.contains(&"PACKAGE=kernel".to_string()));
    assert!(cmd.contains(&format!("TOKEN={}", tok)));
    assert!(cmd.contains(&format!("OUTPUT_SOCKET={}", b.common_build_args.output_socket)));
    assert!(cmd.contains(
        &"BUILDKIT_DOCKERFILE_CHECK=skip=InvalidDefaultArgInFrom,SecretsUsedInArgOrEnv".to_string()
    ));
    assert!(b
        .common_build_args
        .output_socket
        .starts_with(&format!("buildsys-output-{}-", tok)));

    let bypass = b.run_bypass_command();
    assert_eq!(bypass[0], "run");
    assert!(bypass.contains(&"/src/project:/bypass:ro".to_string()));
    assert!(bypass.contains(&"pipesys".to_string()));
    assert!(bypass.contains(&"sdk:v1".to_string()));
}
