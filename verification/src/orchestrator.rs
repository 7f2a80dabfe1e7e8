//! The build orchestrator's decisions and data: per-invocation common
//! arguments, secrets, and the fully assembled engine command lines. The
//! caller performs the external work in this order: probe and check the engine
//! version, create the marker directory, clean tracked outputs when the
//! target asks for it, start the two auxiliary tasks, run the main build
//! through the retry engine, tear the auxiliary tasks down, and on success
//! remove the ephemeral image and promote the outputs.
use vstd::prelude::*;
use vstd::string::StrSliceExecFns;
use vstd::string::StringExecFns;

use crate::args::TargetBuildArgs;
use crate::args::PackageBuildArgs;
use crate::args::KitBuildArgs;
use crate::args::VariantBuildArgs;
use crate::args::RepackVariantBuildArgs;
use crate::args::arg_pair;
use crate::args::build_arg;
use crate::args::build_secret;
use crate::args::secret_pair;
use crate::ident::append_token;
use crate::ident::dec_digits;
use crate::ident::push_dec;
use crate::ident::random_nocache;
use crate::ident::spec_filename;
use crate::ident::spec_token;
use crate::ident::filename;
use crate::ident::token;
use crate::paths::SLASH;
use crate::paths::join_path;

verus! {

/// Whether tracked outputs are cleaned before the build runs.
#[derive(Clone, Copy, PartialEq, Eq, Structural, Debug)]
pub enum OutputCleanup {
    /// Remove what an earlier build produced first; packages, kits and
    /// variants do this.
    BeforeBuild,
    /// Leave prior outputs in place to be overwritten; repackaging does this.
    Keep,
}

/// The arguments every target shares for one invocation.
pub struct CommonBuildArgs {
    pub arch: String,
    pub goarch: String,
    pub sdk: String,
    pub nocache: String,
    pub token: String,
    pub cleanup: OutputCleanup,
    pub output_socket: String,
}

impl CommonBuildArgs {
    /// Derive the per-invocation context: the per-checkout token, a fresh
    /// cache-busting value, and the output socket name combining both.
    pub fn new(root: &str, sdk: String, arch: String, goarch: String, cleanup: OutputCleanup) -> (r:
        CommonBuildArgs)
        ensures
            r.token@ == spec_token(root@),
            r.sdk == sdk && r.arch == arch && r.goarch == goarch && r.cleanup == cleanup,
            r.output_socket@ == "buildsys-output-"@ + spec_token(root@) + "-"@ + r.nocache@,
            exists|n: int| 0 <= n && r.nocache@ == #[trigger] dec_digits(n),
    {
        let tok = token(root);
        let nocache = random_nocache();
        let mut sock = "buildsys-output-".to_owned();
        sock.append(tok.as_str());
        sock.append("-");
        sock.append(nocache.as_str());
        CommonBuildArgs { arch, goarch, sdk, nocache, token: tok, cleanup, output_socket: sock }
    }
}

/// One file-sourced secret: its identifier and the path holding it.
pub struct SecretFile {
    pub id: String,
    pub path: String,
}

/// What the environment supplies for secrets, already read by the caller:
/// the files of the signing-profile directory, and the two optional override
/// paths with whether each exists on disk.
pub struct SecretsEnv {
    pub sbkeys: Vec<SecretFile>,
    pub ca_bundle: String,
    pub ca_bundle_exists: bool,
    pub root_json: String,
    pub root_json_exists: bool,
}

/// Why the secrets cannot be assembled.
#[derive(Clone, Copy, PartialEq, Eq, Structural, Debug)]
pub enum SecretsError {
    /// The certificate-bundle override names a path that does not exist.
    BadCaBundle,
    /// The repository-root override names a path that does not exist.
    BadRootJson,
}

/// The secret arguments of the signing-profile files, in directory order.
pub open spec fn file_secrets(files: Seq<SecretFile>) -> Seq<Seq<char>>
    decreases files.len(),
{
    if files.len() == 0 {
        Seq::empty()
    } else {
        file_secrets(files.drop_last()) + secret_pair(
            "file"@,
            files.last().id@,
            files.last().path@,
        )
    }
}

/// Every secret argument the environment contributes: the signing-profile
/// files, the optional certificate bundle and repository root, and the three
/// credential variables passed by name alone.
pub open spec fn spec_secrets(env: SecretsEnv) -> Seq<Seq<char>> {
    file_secrets(env.sbkeys@) + (if env.ca_bundle@.len() > 0 {
        secret_pair("file"@, "ca-bundle.crt"@, env.ca_bundle@)
    } else {
        Seq::empty()
    }) + (if env.root_json@.len() > 0 {
        secret_pair("file"@, "root.json"@, env.root_json@)
    } else {
        Seq::empty()
    }) + secret_pair("env"@, "aws-access-key-id.env"@, "AWS_ACCESS_KEY_ID"@) + secret_pair(
        "env"@,
        "aws-secret-access-key.env"@,
        "AWS_SECRET_ACCESS_KEY"@,
    ) + secret_pair("env"@, "aws-session-token.env"@, "AWS_SESSION_TOKEN"@)
}

/// Assemble the secret arguments; an override that names a missing path is
/// rejected, the certificate bundle checked first.
pub fn secrets_args(env: &SecretsEnv) -> (r: Result<Vec<String>, SecretsError>)
    ensures
        match r {
            Ok(v) => v.deep_view() == spec_secrets(*env) && (env.ca_bundle@.len() == 0
                || env.ca_bundle_exists) && (env.root_json@.len() == 0 || env.root_json_exists),
            Err(SecretsError::BadCaBundle) => env.ca_bundle@.len() > 0 && !env.ca_bundle_exists,
            Err(SecretsError::BadRootJson) => (env.ca_bundle@.len() == 0 || env.ca_bundle_exists)
                && env.root_json@.len() > 0 && !env.root_json_exists,
        },
{
    let mut args: Vec<String> = Vec::new();
    let mut i: usize = 0;
    proof {
        assert(env.sbkeys@.take(0) =~= Seq::<SecretFile>::empty());
    }
    while i < env.sbkeys.len()
        invariant
            i <= env.sbkeys@.len(),
            args.deep_view() == file_secrets(env.sbkeys@.take(i as int)),
        decreases env.sbkeys@.len() - i,
    {
        build_secret(&mut args, "file", env.sbkeys[i].id.as_str(), env.sbkeys[i].path.as_str());
        proof {
            let t = env.sbkeys@.take(i as int + 1);
            assert(t.drop_last() =~= env.sbkeys@.take(i as int));
            assert(t.last() == env.sbkeys@[i as int]);
        }
        i += 1;
    }
    proof {
        assert(env.sbkeys@.take(env.sbkeys@.len() as int) =~= env.sbkeys@);
    }
    if !env.ca_bundle.as_str().is_empty() {
        if !env.ca_bundle_exists {
            return Err(SecretsError::BadCaBundle);
        }
        build_secret(&mut args, "file", "ca-bundle.crt", env.ca_bundle.as_str());
    }
    if !env.root_json.as_str().is_empty() {
        if !env.root_json_exists {
            return Err(SecretsError::BadRootJson);
        }
        build_secret(&mut args, "file", "root.json", env.root_json.as_str());
    }
    build_secret(&mut args, "env", "aws-access-key-id.env", "AWS_ACCESS_KEY_ID");
    build_secret(&mut args, "env", "aws-secret-access-key.env", "AWS_SECRET_ACCESS_KEY");
    build_secret(&mut args, "env", "aws-session-token.env", "AWS_SESSION_TOKEN");
    proof {
        assert(args.deep_view() =~= spec_secrets(*env));
    }
    Ok(args)
}

/// Copy every element of `src` onto the end of `dst`.
pub fn push_all(dst: &mut Vec<String>, src: &Vec<String>)
    ensures
        final(dst).deep_view() == old(dst).deep_view() + src.deep_view(),
{
    let mut i: usize = 0;
    proof {
        assert(dst.deep_view() =~= old(dst).deep_view() + src.deep_view().take(0));
    }
    while i < src.len()
        invariant
            i <= src@.len(),
            dst.deep_view() == old(dst).deep_view() + src.deep_view().take(i as int),
        decreases src@.len() - i,
    {
        let ghost d0 = dst.deep_view();
        dst.push(src[i].clone());
        proof {
            assert(dst.deep_view() =~~= d0.push(src.deep_view()[i as int]));
            let t = src.deep_view().take(i as int + 1);
            assert(t.drop_last() =~= src.deep_view().take(i as int));
            assert(t.last() == src.deep_view()[i as int]);
            assert(dst.deep_view() =~= old(dst).deep_view() + t);
        }
        i += 1;
    }
    proof {
        assert(src.deep_view().take(src@.len() as int) =~= src.deep_view());
    }
}


/// What every target's construction needs from the caller, resolved to plain
/// values: paths as text for the engine command line, the state tree root and
/// architecture as byte paths for marker bookkeeping, and the identity the
/// build container runs under.
pub struct BuildCommonInputs {
    pub root_dir: String,
    pub tools_dir: String,
    pub sdk_image: String,
    pub arch: String,
    pub goarch: String,
    pub arch_segment: Vec<u8>,
    pub state_dir: Vec<u8>,
    pub builder_uid: u64,
}

/// One build of one target: everything the engine invocation and the
/// artifact bookkeeping need.
pub struct DockerBuild {
    pub dockerfile: String,
    pub context: String,
    pub target: String,
    pub tag: String,
    pub root_dir: String,
    pub artifacts_dirs: Vec<Vec<u8>>,
    pub state_dir: Vec<u8>,
    pub artifact_name: Vec<u8>,
    pub arch_segment: Vec<u8>,
    pub builder_uid: u64,
    pub common_build_args: CommonBuildArgs,
    pub target_build_args: TargetBuildArgs,
    pub secrets_args: Vec<String>,
}

/// What a package build needs beyond the common inputs: the resolved
/// manifest metadata, the version stamps, and the shared packages tree.
pub struct PackageInputs {
    pub package: String,
    pub package_segment: Vec<u8>,
    pub package_dependencies: Vec<String>,
    pub kit_dependencies: Vec<String>,
    pub external_kit_dependencies: Vec<String>,
    pub version_build: String,
    pub version_build_timestamp: String,
    pub packages_dir: Vec<u8>,
}


/// The output directory of a variant build: the image directory joined with
/// `<arch>-<variant>`, the variant taking its name from the manifest
/// directory.
pub open spec fn variant_output_dir(
    image_dir: Seq<u8>,
    arch: Seq<char>,
    cargo_manifest_dir: Seq<char>,
) -> Seq<u8> {
    image_dir + seq![SLASH] + vstd::utf8::encode_utf8(
        arch + "-"@ + spec_filename(cargo_manifest_dir),
    )
}

/// The variant name as a path segment.
pub open spec fn variant_name_bytes(cargo_manifest_dir: Seq<char>) -> Seq<u8> {
    vstd::utf8::encode_utf8(spec_filename(cargo_manifest_dir))
}

/// What a variant repackage needs beyond the common inputs.
pub struct RepackInputs {
    pub cargo_manifest_dir: String,
    pub image_dir: Vec<u8>,
    pub data_image_publish_size_gib: String,
    pub data_image_size_gib: String,
    pub image_features: Vec<String>,
    pub image_format: String,
    pub name: String,
    pub os_image_publish_size_gib: String,
    pub os_image_size_gib: String,
    pub partition_plan: String,
    pub version_build: String,
    pub version_image: String,
}

impl DockerBuild {
    /// Set up a package build: its image is tagged per package and
    /// architecture, its outputs go both to the per-package tree and the
    /// legacy shared tree, and prior outputs are cleaned first.
    pub fn new_package(common: BuildCommonInputs, p: PackageInputs) -> (r: DockerBuild)
        ensures
            r.target@ == "package"@,
            r.dockerfile@ == common.tools_dir@ + "/build.Dockerfile"@,
            r.context == common.root_dir && r.root_dir == common.root_dir,
            r.tag@ == "buildsys-pkg-"@ + p.package@ + "-"@ + common.arch@ + "-"@ + spec_token(
                common.root_dir@,
            ),
            r.artifacts_dirs.deep_view() == seq![
                p.packages_dir@ + seq![SLASH] + p.package_segment@,
                p.packages_dir@,
            ],
            r.state_dir == common.state_dir && r.artifact_name == p.package_segment
                && r.arch_segment == common.arch_segment && r.builder_uid == common.builder_uid,
            r.common_build_args.cleanup == OutputCleanup::BeforeBuild,
            r.common_build_args.token@ == spec_token(common.root_dir@),
            r.common_build_args.arch == common.arch && r.common_build_args.goarch == common.goarch
                && r.common_build_args.sdk == common.sdk_image,
            r.target_build_args == TargetBuildArgs::Package(
                PackageBuildArgs {
                    package: p.package,
                    package_dependencies: p.package_dependencies,
                    kit_dependencies: p.kit_dependencies,
                    external_kit_dependencies: p.external_kit_dependencies,
                    version_build: p.version_build,
                    version_build_timestamp: p.version_build_timestamp,
                },
            ),
            r.secrets_args.deep_view() == Seq::<Seq<char>>::empty(),
    {
        let per_package_dir = join_path(&p.packages_dir, &p.package_segment);
        let mut tag_base = "buildsys-pkg-".to_owned();
        tag_base.append(p.package.as_str());
        tag_base.append("-");
        tag_base.append(common.arch.as_str());
        let tag = append_token(tag_base.as_str(), common.root_dir.as_str());
        let mut dockerfile = common.tools_dir.clone();
        dockerfile.append("/build.Dockerfile");
        let common_build_args = CommonBuildArgs::new(
            common.root_dir.as_str(),
            common.sdk_image,
            common.arch,
            common.goarch,
            OutputCleanup::BeforeBuild,
        );
        let mut artifacts_dirs: Vec<Vec<u8>> = Vec::new();
        artifacts_dirs.push(per_package_dir);
        artifacts_dirs.push(p.packages_dir);
        proof {
            assert(artifacts_dirs.deep_view() =~~= seq![
                artifacts_dirs@[0]@,
                artifacts_dirs@[1]@,
            ]);
        }
        DockerBuild {
            dockerfile,
            context: common.root_dir.clone(),
            target: "package".to_owned(),
            tag,
            root_dir: common.root_dir,
            artifacts_dirs,
            state_dir: common.state_dir,
            artifact_name: p.package_segment,
            arch_segment: common.arch_segment,
            builder_uid: common.builder_uid,
            common_build_args,
            target_build_args: TargetBuildArgs::Package(
                PackageBuildArgs {
                    package: p.package,
                    package_dependencies: p.package_dependencies,
                    kit_dependencies: p.kit_dependencies,
                    external_kit_dependencies: p.external_kit_dependencies,
                    version_build: p.version_build,
                    version_build_timestamp: p.version_build_timestamp,
                },
            ),
            secrets_args: Vec::new(),
        }
    }

    /// Set up a variant repackage: one output tree, outputs kept in place to
    /// be overwritten, and the secrets of the environment attached. The
    /// variant takes its name from the manifest directory.
    pub fn repack_variant(common: BuildCommonInputs, p: RepackInputs, secrets: Vec<String>) -> (r:
        DockerBuild)
        requires
            spec_filename(p.cargo_manifest_dir@).len() > 0,
        ensures
            r.target@ == "repack"@,
            r.dockerfile@ == common.tools_dir@ + "/build.Dockerfile"@,
            r.context == common.root_dir && r.root_dir == common.root_dir,
            r.tag@ == "buildsys-repack-"@ + spec_filename(p.cargo_manifest_dir@) + "-"@
                + common.arch@ + "-"@ + spec_token(common.root_dir@),
            r.artifacts_dirs.deep_view() == seq![
                variant_output_dir(p.image_dir@, common.arch@, p.cargo_manifest_dir@),
            ],
            r.state_dir == common.state_dir && r.artifact_name@ == variant_name_bytes(
                p.cargo_manifest_dir@,
            ) && r.arch_segment == common.arch_segment && r.builder_uid == common.builder_uid,
            r.common_build_args.cleanup == OutputCleanup::Keep,
            r.common_build_args.token@ == spec_token(common.root_dir@),
            (match r.target_build_args {
                TargetBuildArgs::Repack(t) => t.variant@ == spec_filename(p.cargo_manifest_dir@)
                    && t.data_image_publish_size_gib == p.data_image_publish_size_gib
                    && t.data_image_size_gib == p.data_image_size_gib && t.image_features
                    == p.image_features && t.image_format == p.image_format && t.name == p.name
                    && t.os_image_publish_size_gib == p.os_image_publish_size_gib
                    && t.os_image_size_gib == p.os_image_size_gib && t.partition_plan
                    == p.partition_plan && t.version_build == p.version_build && t.version_image
                    == p.version_image,
                _ => false,
            }),
            r.secrets_args == secrets,
    {
        let variant = filename(p.cargo_manifest_dir.as_str());
        let mut seg = common.arch.clone();
        seg.append("-");
        seg.append(variant.as_str());
        let seg_bytes = seg.as_str().as_bytes_vec();
        let output_dir = join_path(&p.image_dir, &seg_bytes);
        let name_bytes = variant.as_str().as_bytes_vec();
        let mut tag_base = "buildsys-repack-".to_owned();
        tag_base.append(variant.as_str());
        tag_base.append("-");
        tag_base.append(common.arch.as_str());
        let tag = append_token(tag_base.as_str(), common.root_dir.as_str());
        let mut dockerfile = common.tools_dir.clone();
        dockerfile.append("/build.Dockerfile");
        let common_build_args = CommonBuildArgs::new(
            common.root_dir.as_str(),
            common.sdk_image,
            common.arch,
            common.goarch,
            OutputCleanup::Keep,
        );
        let mut artifacts_dirs: Vec<Vec<u8>> = Vec::new();
        artifacts_dirs.push(output_dir);
        proof {
            assert(artifacts_dirs.deep_view() =~~= seq![
                variant_output_dir(p.image_dir@, common.arch@, p.cargo_manifest_dir@),
            ]);
        }
        DockerBuild {
            dockerfile,
            context: common.root_dir.clone(),
            target: "repack".to_owned(),
            tag,
            root_dir: common.root_dir,
            artifacts_dirs,
            state_dir: common.state_dir,
            artifact_name: name_bytes,
            arch_segment: common.arch_segment,
            builder_uid: common.builder_uid,
            common_build_args,
            target_build_args: TargetBuildArgs::Repack(
                RepackVariantBuildArgs {
                    data_image_publish_size_gib: p.data_image_publish_size_gib,
                    data_image_size_gib: p.data_image_size_gib,
                    image_features: p.image_features,
                    image_format: p.image_format,
                    name: p.name,
                    os_image_publish_size_gib: p.os_image_publish_size_gib,
                    os_image_size_gib: p.os_image_size_gib,
                    partition_plan: p.partition_plan,
                    variant,
                    version_build: p.version_build,
                    version_image: p.version_image,
                },
            ),
            secrets_args: secrets,
        }
    }

    /// The name of the helper container serving the project tree.
    pub fn bypass_name(&self) -> (r: String)
        ensures
            r@ == self.tag@ + "-bypass"@,
    {
        let mut s = self.tag.clone();
        s.append("-bypass");
        s
    }

    /// The whole argument set handed to the engine after the fixed flags: the
    /// target's own arguments, the common arguments, and the check-skip flag
    /// for two warnings known to be harmless here.
    pub open spec fn spec_all_args(&self) -> Seq<Seq<char>> {
        self.target_build_args.spec_args() + arg_pair("ARCH"@, self.common_build_args.arch@)
            + arg_pair("GOARCH"@, self.common_build_args.goarch@) + arg_pair(
            "SDK"@,
            self.common_build_args.sdk@,
        ) + arg_pair("NOCACHE"@, self.common_build_args.nocache@) + arg_pair(
            "TOKEN"@,
            self.common_build_args.token@,
        ) + arg_pair("OUTPUT_SOCKET"@, self.common_build_args.output_socket@) + arg_pair(
            "BUILDKIT_DOCKERFILE_CHECK"@,
            "skip=InvalidDefaultArgInFrom,SecretsUsedInArgOrEnv"@,
        )
    }

    pub fn build_args(&self) -> (r: Vec<String>)
        requires
            self.target_build_args.features_wf_of(),
        ensures
            r.deep_view() == self.spec_all_args(),
    {
        let mut args = self.target_build_args.build_args();
        build_arg(&mut args, "ARCH", self.common_build_args.arch.as_str());
        build_arg(&mut args, "GOARCH", self.common_build_args.goarch.as_str());
        build_arg(&mut args, "SDK", self.common_build_args.sdk.as_str());
        build_arg(&mut args, "NOCACHE", self.common_build_args.nocache.as_str());
        build_arg(&mut args, "TOKEN", self.common_build_args.token.as_str());
        build_arg(&mut args, "OUTPUT_SOCKET", self.common_build_args.output_socket.as_str());
        build_arg(
            &mut args,
            "BUILDKIT_DOCKERFILE_CHECK",
            "skip=InvalidDefaultArgInFrom,SecretsUsedInArgOrEnv",
        );
        proof {
            assert(args.deep_view() =~= self.spec_all_args());
        }
        args
    }

    /// The full engine command line of the main build: the fixed flags, the
    /// per-target and common arguments, and the secrets.
    pub open spec fn spec_build_command(&self) -> Seq<Seq<char>> {
        seq![
            "build"@,
            self.context@,
            "--target"@,
            self.target@,
            "--tag"@,
            self.tag@,
            "--network"@,
            "host"@,
            "--file"@,
            self.dockerfile@,
            "--no-cache-filter"@,
            "rpmbuild,kitbuild,repobuild,imgbuild,migrationbuild,kmodkitbuild,imgrepack"@,
        ] + arg_pair("BYPASS_SOCKET"@, self.tag@ + "-bypass"@) + arg_pair(
            "BUILDER_UID"@,
            dec_digits(self.builder_uid as int),
        ) + self.spec_all_args() + self.secrets_args.deep_view()
    }

    pub fn build_command(&self) -> (r: Vec<String>)
        requires
            self.target_build_args.features_wf_of(),
        ensures
            r.deep_view() == self.spec_build_command(),
    {
        let mut r: Vec<String> = Vec::new();
        r.push("build".to_owned());
        r.push(self.context.clone());
        r.push("--target".to_owned());
        r.push(self.target.clone());
        r.push("--tag".to_owned());
        r.push(self.tag.clone());
        r.push("--network".to_owned());
        r.push("host".to_owned());
        r.push("--file".to_owned());
        r.push(self.dockerfile.clone());
        r.push("--no-cache-filter".to_owned());
        r.push("rpmbuild,kitbuild,repobuild,imgbuild,migrationbuild,kmodkitbuild,imgrepack".to_owned());
        proof {
            assert(r.deep_view() =~~= seq![
                "build"@,
                self.context@,
                "--target"@,
                self.target@,
                "--tag"@,
                self.tag@,
                "--network"@,
                "host"@,
                "--file"@,
                self.dockerfile@,
                "--no-cache-filter"@,
                "rpmbuild,kitbuild,repobuild,imgbuild,migrationbuild,kmodkitbuild,imgrepack"@,
            ]);
        }
        let bypass = self.bypass_name();
        build_arg(&mut r, "BYPASS_SOCKET", bypass.as_str());
        let mut uid = String::new();
        push_dec(&mut uid, self.builder_uid as u128);
        build_arg(&mut r, "BUILDER_UID", uid.as_str());
        let rest = self.build_args();
        push_all(&mut r, &rest);
        push_all(&mut r, &self.secrets_args);
        proof {
            assert(r.deep_view() =~= self.spec_build_command());
        }
        r
    }

    /// The command removing this invocation's ephemeral image.
    pub fn rm_image_command(&self) -> (r: Vec<String>)
        ensures
            r.deep_view() == seq!["rmi"@, "--force"@, self.tag@],
    {
        let mut r: Vec<String> = Vec::new();
        r.push("rmi".to_owned());
        r.push("--force".to_owned());
        r.push(self.tag.clone());
        proof {
            assert(r.deep_view() =~~= seq!["rmi"@, "--force"@, self.tag@]);
        }
        r
    }

    /// The command removing a stale helper container of the same name.
    pub fn rm_bypass_command(&self) -> (r: Vec<String>)
        ensures
            r.deep_view() == seq!["rm"@, "--force"@, self.tag@ + "-bypass"@],
    {
        let mut r: Vec<String> = Vec::new();
        r.push("rm".to_owned());
        r.push("--force".to_owned());
        r.push(self.bypass_name());
        proof {
            assert(r.deep_view() =~~= seq!["rm"@, "--force"@, self.tag@ + "-bypass"@]);
        }
        r
    }

    /// The command running the helper container that serves a read-only view
    /// of the project tree over the bypass socket.
    pub fn run_bypass_command(&self) -> (r: Vec<String>)
        ensures
            r.deep_view() == seq![
                "run"@,
                "--name"@,
                self.tag@ + "-bypass"@,
                "--rm"@,
                "--init"@,
                "--net"@,
                "host"@,
                "--pid"@,
                "host"@,
                "-u"@,
                "0"@,
                "-v"@,
                self.root_dir@ + ":/bypass:ro"@,
                "-v"@,
                self.root_dir@ + "/build/tools/pipesys:/usr/local/bin/pipesys:ro"@,
                self.common_build_args.sdk@,
                "pipesys"@,
                "serve"@,
                "--socket"@,
                self.tag@ + "-bypass"@,
                "--client-uid"@,
                "0"@,
                "--path"@,
                "/bypass"@,
            ],
    {
        let mut r: Vec<String> = Vec::new();
        r.push("run".to_owned());
        r.push("--name".to_owned());
        r.push(self.bypass_name());
        r.push("--rm".to_owned());
        r.push("--init".to_owned());
        r.push("--net".to_owned());
        r.push("host".to_owned());
        r.push("--pid".to_owned());
        r.push("host".to_owned());
        r.push("-u".to_owned());
        r.push("0".to_owned());
        r.push("-v".to_owned());
        let mut v1 = self.root_dir.clone();
        v1.append(":/bypass:ro");
        r.push(v1);
        r.push("-v".to_owned());
        let mut v2 = self.root_dir.clone();
        v2.append("/build/tools/pipesys:/usr/local/bin/pipesys:ro");
        r.push(v2);
        r.push(self.common_build_args.sdk.clone());
        r.push("pipesys".to_owned());
        r.push("serve".to_owned());
        r.push("--socket".to_owned());
        r.push(self.bypass_name());
        r.push("--client-uid".to_owned());
        r.push("0".to_owned());
        r.push("--path".to_owned());
        r.push("/bypass".to_owned());
        proof {
            assert(r.deep_view() =~~= seq![
                "run"@,
                "--name"@,
                self.tag@ + "-bypass"@,
                "--rm"@,
                "--init"@,
                "--net"@,
                "host"@,
                "--pid"@,
                "host"@,
                "-u"@,
                "0"@,
                "-v"@,
                self.root_dir@ + ":/bypass:ro"@,
                "-v"@,
                self.root_dir@ + "/build/tools/pipesys:/usr/local/bin/pipesys:ro"@,
                self.common_build_args.sdk@,
                "pipesys"@,
                "serve"@,
                "--socket"@,
                self.tag@ + "-bypass"@,
                "--client-uid"@,
                "0"@,
                "--path"@,
                "/bypass"@,
            ]);
        }
        r
    }

    /// Does this target clean tracked outputs before building?
    pub fn clean_before_build(&self) -> (r: bool)
        ensures
            r == (self.common_build_args.cleanup == OutputCleanup::BeforeBuild),
    {
        matches!(self.common_build_args.cleanup, OutputCleanup::BeforeBuild)
    }
}


/// What a kit build needs beyond the common inputs.
pub struct KitInputs {
    pub kit: String,
    pub kit_segment: Vec<u8>,
    pub vendor: String,
    pub external_kit_metadata: String,
    pub local_kits: Vec<String>,
    pub package_dependencies: Vec<String>,
    pub version_build: String,
    pub version_image: String,
    pub kits_dir: Vec<u8>,
}

/// What a variant image build needs beyond the common inputs: the manifest
/// directory the variant takes its name from, the resolved variant parts, the
/// image layout, and the dependency lists.
pub struct VariantInputs {
    pub cargo_manifest_dir: String,
    pub image_dir: Vec<u8>,
    pub variant_platform: String,
    pub variant_runtime: String,
    pub variant_family: String,
    pub variant_flavor: String,
    pub package_dependencies: Vec<String>,
    pub kit_dependencies: Vec<String>,
    pub external_kit_dependencies: Vec<String>,
    pub data_image_publish_size_gib: String,
    pub data_image_size_gib: String,
    pub image_features: Vec<String>,
    pub image_format: String,
    pub kernel_parameters: String,
    pub name: String,
    pub os_image_publish_size_gib: String,
    pub os_image_size_gib: String,
    pub packages: String,
    pub partition_plan: String,
    pub pretty_name: String,
    pub version_build: String,
    pub version_image: String,
}

impl DockerBuild {
    /// Set up a kit build: one per-kit output tree, prior outputs cleaned
    /// first.
    pub fn new_kit(common: BuildCommonInputs, p: KitInputs) -> (r: DockerBuild)
        ensures
            r.target@ == "kit"@,
            r.dockerfile@ == common.tools_dir@ + "/build.Dockerfile"@,
            r.context == common.root_dir && r.root_dir == common.root_dir,
            r.tag@ == "buildsys-kit-"@ + p.kit@ + "-"@ + common.arch@ + "-"@ + spec_token(
                common.root_dir@,
            ),
            r.artifacts_dirs.deep_view() == seq![p.kits_dir@ + seq![SLASH] + p.kit_segment@],
            r.state_dir == common.state_dir && r.artifact_name == p.kit_segment && r.arch_segment
                == common.arch_segment && r.builder_uid == common.builder_uid,
            r.common_build_args.cleanup == OutputCleanup::BeforeBuild,
            r.common_build_args.token@ == spec_token(common.root_dir@),
            r.target_build_args == TargetBuildArgs::Kit(
                KitBuildArgs {
                    kit: p.kit,
                    package_dependencies: p.package_dependencies,
                    external_kit_metadata: p.external_kit_metadata,
                    local_kits: p.local_kits,
                    vendor: p.vendor,
                    version_build: p.version_build,
                    version_id: p.version_image,
                },
            ),
            r.secrets_args.deep_view() == Seq::<Seq<char>>::empty(),
    {
        let per_kit_dir = join_path(&p.kits_dir, &p.kit_segment);
        let mut tag_base = "buildsys-kit-".to_owned();
        tag_base.append(p.kit.as_str());
        tag_base.append("-");
        tag_base.append(common.arch.as_str());
        let tag = append_token(tag_base.as_str(), common.root_dir.as_str());
        let mut dockerfile = common.tools_dir.clone();
        dockerfile.append("/build.Dockerfile");
        let common_build_args = CommonBuildArgs::new(
            common.root_dir.as_str(),
            common.sdk_image,
            common.arch,
            common.goarch,
            OutputCleanup::BeforeBuild,
        );
        let mut artifacts_dirs: Vec<Vec<u8>> = Vec::new();
        artifacts_dirs.push(per_kit_dir);
        proof {
            assert(artifacts_dirs.deep_view() =~~= seq![artifacts_dirs@[0]@]);
        }
        DockerBuild {
            dockerfile,
            context: common.root_dir.clone(),
            target: "kit".to_owned(),
            tag,
            root_dir: common.root_dir,
            artifacts_dirs,
            state_dir: common.state_dir,
            artifact_name: p.kit_segment,
            arch_segment: common.arch_segment,
            builder_uid: common.builder_uid,
            common_build_args,
            target_build_args: TargetBuildArgs::Kit(
                KitBuildArgs {
                    kit: p.kit,
                    package_dependencies: p.package_dependencies,
                    external_kit_metadata: p.external_kit_metadata,
                    local_kits: p.local_kits,
                    vendor: p.vendor,
                    version_build: p.version_build,
                    version_id: p.version_image,
                },
            ),
            secrets_args: Vec::new(),
        }
    }

    /// Set up a variant image build: one per-variant output tree, prior
    /// outputs cleaned first, and the secrets of the environment attached.
    /// The variant takes its name from the manifest directory.
    pub fn new_variant(common: BuildCommonInputs, p: VariantInputs, secrets: Vec<String>) -> (r:
        DockerBuild)
        requires
            spec_filename(p.cargo_manifest_dir@).len() > 0,
        ensures
            r.target@ == "variant"@,
            r.dockerfile@ == common.tools_dir@ + "/build.Dockerfile"@,
            r.context == common.root_dir && r.root_dir == common.root_dir,
            r.tag@ == "buildsys-var-"@ + spec_filename(p.cargo_manifest_dir@) + "-"@ + common.arch@
                + "-"@ + spec_token(common.root_dir@),
            r.artifacts_dirs.deep_view() == seq![
                variant_output_dir(p.image_dir@, common.arch@, p.cargo_manifest_dir@),
            ],
            r.state_dir == common.state_dir && r.artifact_name@ == variant_name_bytes(
                p.cargo_manifest_dir@,
            ) && r.arch_segment == common.arch_segment && r.builder_uid == common.builder_uid,
            r.common_build_args.cleanup == OutputCleanup::BeforeBuild,
            r.common_build_args.token@ == spec_token(common.root_dir@),
            (match r.target_build_args {
                TargetBuildArgs::Variant(t) => t.variant@ == spec_filename(p.cargo_manifest_dir@)
                    && t.variant_platform == p.variant_platform && t.variant_runtime
                    == p.variant_runtime && t.variant_family == p.variant_family && t.variant_flavor
                    == p.variant_flavor && t.package_dependencies == p.package_dependencies
                    && t.kit_dependencies == p.kit_dependencies && t.external_kit_dependencies
                    == p.external_kit_dependencies && t.data_image_publish_size_gib
                    == p.data_image_publish_size_gib && t.data_image_size_gib
                    == p.data_image_size_gib && t.image_features == p.image_features
                    && t.image_format == p.image_format && t.kernel_parameters
                    == p.kernel_parameters && t.name == p.name && t.os_image_publish_size_gib
                    == p.os_image_publish_size_gib && t.os_image_size_gib == p.os_image_size_gib
                    && t.packages == p.packages && t.partition_plan == p.partition_plan
                    && t.pretty_name == p.pretty_name && t.version_build == p.version_build
                    && t.version_image == p.version_image,
                _ => false,
            }),
            r.secrets_args == secrets,
    {
        let variant = filename(p.cargo_manifest_dir.as_str());
        let mut seg = common.arch.clone();
        seg.append("-");
        seg.append(variant.as_str());
        let seg_bytes = seg.as_str().as_bytes_vec();
        let output_dir = join_path(&p.image_dir, &seg_bytes);
        let name_bytes = variant.as_str().as_bytes_vec();
        let mut tag_base = "buildsys-var-".to_owned();
        tag_base.append(variant.as_str());
        tag_base.append("-");
        tag_base.append(common.arch.as_str());
        let tag = append_token(tag_base.as_str(), common.root_dir.as_str());
        let mut dockerfile = common.tools_dir.clone();
        dockerfile.append("/build.Dockerfile");
        let common_build_args = CommonBuildArgs::new(
            common.root_dir.as_str(),
            common.sdk_image,
            common.arch,
            common.goarch,
            OutputCleanup::BeforeBuild,
        );
        let mut artifacts_dirs: Vec<Vec<u8>> = Vec::new();
        artifacts_dirs.push(output_dir);
        proof {
            assert(artifacts_dirs.deep_view() =~~= seq![
                variant_output_dir(p.image_dir@, common.arch@, p.cargo_manifest_dir@),
            ]);
        }
        DockerBuild {
            dockerfile,
            context: common.root_dir.clone(),
            target: "variant".to_owned(),
            tag,
            root_dir: common.root_dir,
            artifacts_dirs,
            state_dir: common.state_dir,
            artifact_name: name_bytes,
            arch_segment: common.arch_segment,
            builder_uid: common.builder_uid,
            common_build_args,
            target_build_args: TargetBuildArgs::Variant(
                VariantBuildArgs {
                    package_dependencies: p.package_dependencies,
                    kit_dependencies: p.kit_dependencies,
                    external_kit_dependencies: p.external_kit_dependencies,
                    data_image_publish_size_gib: p.data_image_publish_size_gib,
                    data_image_size_gib: p.data_image_size_gib,
                    image_features: p.image_features,
                    image_format: p.image_format,
                    kernel_parameters: p.kernel_parameters,
                    name: p.name,
                    os_image_publish_size_gib: p.os_image_publish_size_gib,
                    os_image_size_gib: p.os_image_size_gib,
                    packages: p.packages,
                    partition_plan: p.partition_plan,
                    pretty_name: p.pretty_name,
                    variant,
                    variant_family: p.variant_family,
                    variant_flavor: p.variant_flavor,
                    variant_platform: p.variant_platform,
                    variant_runtime: p.variant_runtime,
                    version_build: p.version_build,
                    version_image: p.version_image,
                },
            ),
            secrets_args: secrets,
        }
    }
}

} // verus!
