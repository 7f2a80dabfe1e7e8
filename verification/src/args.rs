//! The target configuration model: the ordered argument set each build target
//! hands to the external build engine, assembled deterministically from
//! already-resolved metadata.
use vstd::prelude::*;
use vstd::string::StrSliceExecFns;
use vstd::string::StringExecFns;

use crate::BuildType;

verus! {

/// The two elements one key/value pair contributes to the argument vector.
pub open spec fn arg_pair(k: Seq<char>, v: Seq<char>) -> Seq<Seq<char>> {
    seq!["--build-arg"@, k + "="@ + v]
}

/// The two elements one secret contributes to the argument vector.
pub open spec fn secret_pair(t: Seq<char>, i: Seq<char>, s: Seq<char>) -> Seq<Seq<char>> {
    seq!["--secret"@, "type="@ + t + ",id="@ + i + ",src="@ + s]
}

/// The parts joined with single spaces.
pub open spec fn joined(parts: Seq<Seq<char>>) -> Seq<char>
    decreases parts.len(),
{
    if parts.len() == 0 {
        Seq::empty()
    } else if parts.len() == 1 {
        parts[0]
    } else {
        joined(parts.drop_last()) + " "@ + parts.last()
    }
}

/// Append one `--build-arg KEY=VALUE` pair to an argument vector.
pub fn build_arg(args: &mut Vec<String>, key: &str, value: &str)
    ensures
        final(args).deep_view() == old(args).deep_view() + arg_pair(key@, value@),
{
    let ghost a0 = args.deep_view();
    args.push("--build-arg".to_owned());
    let mut s = key.to_owned();
    s.append("=");
    s.append(value);
    args.push(s);
    proof {
        assert(args.deep_view() =~~= a0 + arg_pair(key@, value@));
    }
}

/// Append one `--secret type=..,id=..,src=..` pair to an argument vector.
pub fn build_secret(args: &mut Vec<String>, typ: &str, id: &str, src: &str)
    ensures
        final(args).deep_view() == old(args).deep_view() + secret_pair(typ@, id@, src@),
{
    let ghost a0 = args.deep_view();
    args.push("--secret".to_owned());
    let mut s = "type=".to_owned();
    s.append(typ);
    s.append(",id=");
    s.append(id);
    s.append(",src=");
    s.append(src);
    args.push(s);
    proof {
        assert(args.deep_view() =~~= a0 + secret_pair(typ@, id@, src@));
    }
}

/// Join texts with single spaces, as dependency lists are handed to the
/// engine.
pub fn join_spaces(v: &Vec<String>) -> (r: String)
    ensures
        r@ == joined(v.deep_view()),
{
    let mut r = String::new();
    let mut i: usize = 0;
    proof {
        assert(v.deep_view().take(0) =~= Seq::<Seq<char>>::empty());
    }
    while i < v.len()
        invariant
            i <= v@.len(),
            r@ == joined(v.deep_view().take(i as int)),
        decreases v@.len() - i,
    {
        if i > 0 {
            r.append(" ");
        }
        r.append(v[i].as_str());
        proof {
            let t = v.deep_view().take(i as int + 1);
            assert(t.drop_last() =~= v.deep_view().take(i as int));
            assert(t.last() == v.deep_view()[i as int]);
            if i == 0 {
                assert(r@ =~= joined(t));
            } else {
                assert(r@ =~= joined(t));
            }
        }
        i += 1;
    }
    proof {
        assert(v.deep_view().take(v@.len() as int) =~= v.deep_view());
    }
    r
}

/// The per-feature flags: one boolean-valued argument per image feature.
pub open spec fn feature_args(feats: Seq<Seq<char>>) -> Seq<Seq<char>>
    decreases feats.len(),
{
    if feats.len() == 0 {
        Seq::empty()
    } else {
        feature_args(feats.drop_last()) + arg_pair(feats.last(), "1"@)
    }
}

/// Append one boolean-valued argument per image feature.
pub fn push_feature_args(args: &mut Vec<String>, feats: &Vec<String>)
    ensures
        final(args).deep_view() == old(args).deep_view() + feature_args(feats.deep_view()),
{
    let mut i: usize = 0;
    proof {
        assert(feats.deep_view().take(0) =~= Seq::<Seq<char>>::empty());
        assert(args.deep_view() =~= old(args).deep_view() + feature_args(
            feats.deep_view().take(0),
        ));
    }
    while i < feats.len()
        invariant
            i <= feats@.len(),
            args.deep_view() == old(args).deep_view() + feature_args(
                feats.deep_view().take(i as int),
            ),
        decreases feats@.len() - i,
    {
        build_arg(args, feats[i].as_str(), "1");
        proof {
            let t = feats.deep_view().take(i as int + 1);
            assert(t.drop_last() =~= feats.deep_view().take(i as int));
            assert(t.last() == feats.deep_view()[i as int]);
            assert(args.deep_view() =~= old(args).deep_view() + feature_args(t));
        }
        i += 1;
    }
    proof {
        assert(feats.deep_view().take(feats@.len() as int) =~= feats.deep_view());
    }
}


/// Texts that are pairwise distinct.
pub open spec fn distinct_texts(s: Seq<Seq<char>>) -> bool {
    forall|i: int, j: int| 0 <= i < j < s.len() ==> s[i] != s[j]
}

/// The argument keys the driver itself assigns. An image feature may not
/// reuse one, so that every key appears exactly once in an argument set.
pub open spec fn reserved_arg_key(k: Seq<char>) -> bool {
    ||| k == "KIT"@
    ||| k == "PACKAGE"@
    ||| k == "PACKAGE_DEPENDENCIES"@
    ||| k == "KIT_DEPENDENCIES"@
    ||| k == "EXTERNAL_KIT_DEPENDENCIES"@
    ||| k == "EXTERNAL_KIT_METADATA"@
    ||| k == "LOCAL_KIT_DEPENDENCIES"@
    ||| k == "VENDOR"@
    ||| k == "BUILD_ID"@
    ||| k == "BUILD_ID_TIMESTAMP"@
    ||| k == "VERSION_ID"@
    ||| k == "DATA_IMAGE_PUBLISH_SIZE_GIB"@
    ||| k == "DATA_IMAGE_SIZE_GIB"@
    ||| k == "IMAGE_FORMAT"@
    ||| k == "IMAGE_NAME"@
    ||| k == "KERNEL_PARAMETERS"@
    ||| k == "OS_IMAGE_PUBLISH_SIZE_GIB"@
    ||| k == "OS_IMAGE_SIZE_GIB"@
    ||| k == "PACKAGES"@
    ||| k == "PARTITION_PLAN"@
    ||| k == "PRETTY_NAME"@
    ||| k == "VARIANT"@
    ||| k == "VARIANT_FAMILY"@
    ||| k == "VARIANT_FLAVOR"@
    ||| k == "VARIANT_PLATFORM"@
    ||| k == "VARIANT_RUNTIME"@
    ||| k == "ARCH"@
    ||| k == "GOARCH"@
    ||| k == "SDK"@
    ||| k == "NOCACHE"@
    ||| k == "TOKEN"@
    ||| k == "OUTPUT_SOCKET"@
    ||| k == "BUILDKIT_DOCKERFILE_CHECK"@
    ||| k == "BYPASS_SOCKET"@
    ||| k == "BUILDER_UID"@
}

/// Image features form a set of fresh keys: pairwise distinct and none of
/// them a key the driver assigns itself.
pub open spec fn features_wf(feats: Seq<Seq<char>>) -> bool {
    distinct_texts(feats) && forall|i: int|
        0 <= i < feats.len() ==> !reserved_arg_key(#[trigger] feats[i])
}

/// Is the text a key the driver assigns itself?
pub fn is_reserved_arg_key(s: &String) -> (r: bool)
    ensures
        r == reserved_arg_key(s@),
{
    *s == "KIT".to_owned() || *s == "PACKAGE".to_owned() || *s == "PACKAGE_DEPENDENCIES".to_owned()
        || *s == "KIT_DEPENDENCIES".to_owned() || *s == "EXTERNAL_KIT_DEPENDENCIES".to_owned() || *s
        == "EXTERNAL_KIT_METADATA".to_owned() || *s == "LOCAL_KIT_DEPENDENCIES".to_owned() || *s
        == "VENDOR".to_owned() || *s == "BUILD_ID".to_owned() || *s == "BUILD_ID_TIMESTAMP".to_owned()
        || *s == "VERSION_ID".to_owned() || *s == "DATA_IMAGE_PUBLISH_SIZE_GIB".to_owned() || *s
        == "DATA_IMAGE_SIZE_GIB".to_owned() || *s == "IMAGE_FORMAT".to_owned() || *s
        == "IMAGE_NAME".to_owned() || *s == "KERNEL_PARAMETERS".to_owned() || *s
        == "OS_IMAGE_PUBLISH_SIZE_GIB".to_owned() || *s == "OS_IMAGE_SIZE_GIB".to_owned() || *s
        == "PACKAGES".to_owned() || *s == "PARTITION_PLAN".to_owned() || *s == "PRETTY_NAME".to_owned()
        || *s == "VARIANT".to_owned() || *s == "VARIANT_FAMILY".to_owned() || *s
        == "VARIANT_FLAVOR".to_owned() || *s == "VARIANT_PLATFORM".to_owned() || *s
        == "VARIANT_RUNTIME".to_owned() || *s == "ARCH".to_owned() || *s == "GOARCH".to_owned() || *s
        == "SDK".to_owned() || *s == "NOCACHE".to_owned() || *s == "TOKEN".to_owned() || *s
        == "OUTPUT_SOCKET".to_owned() || *s == "BUILDKIT_DOCKERFILE_CHECK".to_owned() || *s
        == "BYPASS_SOCKET".to_owned() || *s == "BUILDER_UID".to_owned()
}

/// Do the image features form a set of fresh keys? Callers test this before
/// asking for a variant or repackage argument set.
pub fn check_image_features(feats: &Vec<String>) -> (r: bool)
    ensures
        r == features_wf(feats.deep_view()),
{
    let mut i: usize = 0;
    while i < feats.len()
        invariant
            i <= feats@.len(),
            forall|a: int| 0 <= a < i ==> !reserved_arg_key(#[trigger] feats.deep_view()[a]),
            forall|a: int, b: int|
                0 <= a < b < feats.deep_view().len() && a < i ==> feats.deep_view()[a]
                    != feats.deep_view()[b],
        decreases feats@.len() - i,
    {
        if is_reserved_arg_key(&feats[i]) {
            proof {
                assert(reserved_arg_key(feats.deep_view()[i as int]));
            }
            return false;
        }
        let mut j: usize = i + 1;
        while j < feats.len()
            invariant
                i < j <= feats@.len(),
                forall|b: int| i < b < j ==> feats.deep_view()[i as int] != feats.deep_view()[b],
            decreases feats@.len() - j,
        {
            if feats[i] == feats[j] {
                proof {
                    assert(feats.deep_view()[i as int] == feats.deep_view()[j as int]);
                }
                return false;
            }
            j += 1;
        }
        i += 1;
    }
    true
}

/// Arguments for one package build.
pub struct PackageBuildArgs {
    pub package: String,
    pub package_dependencies: Vec<String>,
    pub kit_dependencies: Vec<String>,
    pub external_kit_dependencies: Vec<String>,
    pub version_build: String,
    pub version_build_timestamp: String,
}

impl PackageBuildArgs {
    /// The argument set this target contributes.
    pub open spec fn spec_args(&self) -> Seq<Seq<char>> {
        arg_pair("KIT_DEPENDENCIES"@, joined(self.kit_dependencies.deep_view())) + arg_pair(
            "EXTERNAL_KIT_DEPENDENCIES"@,
            joined(self.external_kit_dependencies.deep_view()),
        ) + arg_pair("PACKAGE"@, self.package@) + arg_pair(
            "PACKAGE_DEPENDENCIES"@,
            joined(self.package_dependencies.deep_view()),
        ) + arg_pair("BUILD_ID"@, self.version_build@) + arg_pair(
            "BUILD_ID_TIMESTAMP"@,
            self.version_build_timestamp@,
        )
    }

    pub fn build_args(&self) -> (r: Vec<String>)
        ensures
            r.deep_view() == self.spec_args(),
    {
        let mut args: Vec<String> = Vec::new();
        let kd = join_spaces(&self.kit_dependencies);
        build_arg(&mut args, "KIT_DEPENDENCIES", kd.as_str());
        let ekd = join_spaces(&self.external_kit_dependencies);
        build_arg(&mut args, "EXTERNAL_KIT_DEPENDENCIES", ekd.as_str());
        build_arg(&mut args, "PACKAGE", self.package.as_str());
        let pd = join_spaces(&self.package_dependencies);
        build_arg(&mut args, "PACKAGE_DEPENDENCIES", pd.as_str());
        build_arg(&mut args, "BUILD_ID", self.version_build.as_str());
        build_arg(&mut args, "BUILD_ID_TIMESTAMP", self.version_build_timestamp.as_str());
        proof {
            assert(args.deep_view() =~= self.spec_args());
        }
        args
    }
}

/// Arguments for one kit build.
pub struct KitBuildArgs {
    pub kit: String,
    pub package_dependencies: Vec<String>,
    pub external_kit_metadata: String,
    pub local_kits: Vec<String>,
    pub vendor: String,
    pub version_build: String,
    pub version_id: String,
}

impl KitBuildArgs {
    /// The argument set this target contributes.
    pub open spec fn spec_args(&self) -> Seq<Seq<char>> {
        arg_pair("KIT"@, self.kit@) + arg_pair(
            "PACKAGE_DEPENDENCIES"@,
            joined(self.package_dependencies.deep_view()),
        ) + arg_pair("BUILD_ID"@, self.version_build@) + arg_pair("VERSION_ID"@, self.version_id@)
            + arg_pair("EXTERNAL_KIT_METADATA"@, self.external_kit_metadata@) + arg_pair(
            "VENDOR"@,
            self.vendor@,
        ) + arg_pair("LOCAL_KIT_DEPENDENCIES"@, joined(self.local_kits.deep_view()))
    }

    pub fn build_args(&self) -> (r: Vec<String>)
        ensures
            r.deep_view() == self.spec_args(),
    {
        let mut args: Vec<String> = Vec::new();
        build_arg(&mut args, "KIT", self.kit.as_str());
        let pd = join_spaces(&self.package_dependencies);
        build_arg(&mut args, "PACKAGE_DEPENDENCIES", pd.as_str());
        build_arg(&mut args, "BUILD_ID", self.version_build.as_str());
        build_arg(&mut args, "VERSION_ID", self.version_id.as_str());
        build_arg(&mut args, "EXTERNAL_KIT_METADATA", self.external_kit_metadata.as_str());
        build_arg(&mut args, "VENDOR", self.vendor.as_str());
        let lk = join_spaces(&self.local_kits);
        build_arg(&mut args, "LOCAL_KIT_DEPENDENCIES", lk.as_str());
        proof {
            assert(args.deep_view() =~= self.spec_args());
        }
        args
    }
}

/// Arguments for one variant image build.
pub struct VariantBuildArgs {
    pub package_dependencies: Vec<String>,
    pub kit_dependencies: Vec<String>,
    pub external_kit_dependencies: Vec<String>,
    pub data_image_publish_size_gib: String,
    pub data_image_size_gib: String,
    pub image_features: Vec<String>,
    pub image_format: String,
    pub kernel_parameters: String,
    pub name: String,
    pub os_image_publish_size_gib: String,
    pub os_image_size_gib: String,
    pub packages: String,
    pub partition_plan: String,
    pub pretty_name: String,
    pub variant: String,
    pub variant_family: String,
    pub variant_flavor: String,
    pub variant_platform: String,
    pub variant_runtime: String,
    pub version_build: String,
    pub version_image: String,
}

impl VariantBuildArgs {
    /// The argument set this target contributes.
    pub open spec fn spec_args(&self) -> Seq<Seq<char>> {
        arg_pair("DATA_IMAGE_PUBLISH_SIZE_GIB"@, self.data_image_publish_size_gib@) + arg_pair(
            "BUILD_ID"@,
            self.version_build@,
        ) + arg_pair("DATA_IMAGE_SIZE_GIB"@, self.data_image_size_gib@) + arg_pair(
            "IMAGE_FORMAT"@,
            self.image_format@,
        ) + arg_pair("IMAGE_NAME"@, self.name@) + arg_pair(
            "KERNEL_PARAMETERS"@,
            self.kernel_parameters@,
        ) + arg_pair("KIT_DEPENDENCIES"@, joined(self.kit_dependencies.deep_view())) + arg_pair(
            "EXTERNAL_KIT_DEPENDENCIES"@,
            joined(self.external_kit_dependencies.deep_view()),
        ) + arg_pair("OS_IMAGE_PUBLISH_SIZE_GIB"@, self.os_image_publish_size_gib@) + arg_pair(
            "OS_IMAGE_SIZE_GIB"@,
            self.os_image_size_gib@,
        ) + arg_pair("PACKAGES"@, self.packages@) + arg_pair(
            "PACKAGE_DEPENDENCIES"@,
            joined(self.package_dependencies.deep_view()),
        ) + arg_pair("PARTITION_PLAN"@, self.partition_plan@) + arg_pair(
            "PRETTY_NAME"@,
            self.pretty_name@,
        ) + arg_pair("VARIANT"@, self.variant@) + arg_pair("VARIANT_FAMILY"@, self.variant_family@)
            + arg_pair("VARIANT_FLAVOR"@, self.variant_flavor@) + arg_pair(
            "VARIANT_PLATFORM"@,
            self.variant_platform@,
        ) + arg_pair("VARIANT_RUNTIME"@, self.variant_runtime@) + arg_pair(
            "VERSION_ID"@,
            self.version_image@,
        ) + feature_args(self.image_features.deep_view())
    }

    pub fn build_args(&self) -> (r: Vec<String>)
        requires
            features_wf(self.image_features.deep_view()),
        ensures
            r.deep_view() == self.spec_args(),
    {
        let mut args: Vec<String> = Vec::new();
        build_arg(
            &mut args,
            "DATA_IMAGE_PUBLISH_SIZE_GIB",
            self.data_image_publish_size_gib.as_str(),
        );
        build_arg(&mut args, "BUILD_ID", self.version_build.as_str());
        build_arg(&mut args, "DATA_IMAGE_SIZE_GIB", self.data_image_size_gib.as_str());
        build_arg(&mut args, "IMAGE_FORMAT", self.image_format.as_str());
        build_arg(&mut args, "IMAGE_NAME", self.name.as_str());
        build_arg(&mut args, "KERNEL_PARAMETERS", self.kernel_parameters.as_str());
        let kd = join_spaces(&self.kit_dependencies);
        build_arg(&mut args, "KIT_DEPENDENCIES", kd.as_str());
        let ekd = join_spaces(&self.external_kit_dependencies);
        build_arg(&mut args, "EXTERNAL_KIT_DEPENDENCIES", ekd.as_str());
        build_arg(&mut args, "OS_IMAGE_PUBLISH_SIZE_GIB", self.os_image_publish_size_gib.as_str());
        build_arg(&mut args, "OS_IMAGE_SIZE_GIB", self.os_image_size_gib.as_str());
        build_arg(&mut args, "PACKAGES", self.packages.as_str());
        let pd = join_spaces(&self.package_dependencies);
        build_arg(&mut args, "PACKAGE_DEPENDENCIES", pd.as_str());
        build_arg(&mut args, "PARTITION_PLAN", self.partition_plan.as_str());
        build_arg(&mut args, "PRETTY_NAME", self.pretty_name.as_str());
        build_arg(&mut args, "VARIANT", self.variant.as_str());
        build_arg(&mut args, "VARIANT_FAMILY", self.variant_family.as_str());
        build_arg(&mut args, "VARIANT_FLAVOR", self.variant_flavor.as_str());
        build_arg(&mut args, "VARIANT_PLATFORM", self.variant_platform.as_str());
        build_arg(&mut args, "VARIANT_RUNTIME", self.variant_runtime.as_str());
        build_arg(&mut args, "VERSION_ID", self.version_image.as_str());
        push_feature_args(&mut args, &self.image_features);
        proof {
            assert(args.deep_view() =~= self.spec_args());
        }
        args
    }
}

/// Arguments for repackaging a variant image.
pub struct RepackVariantBuildArgs {
    pub data_image_publish_size_gib: String,
    pub data_image_size_gib: String,
    pub image_features: Vec<String>,
    pub image_format: String,
    pub name: String,
    pub os_image_publish_size_gib: String,
    pub os_image_size_gib: String,
    pub partition_plan: String,
    pub variant: String,
    pub version_build: String,
    pub version_image: String,
}

impl RepackVariantBuildArgs {
    /// The argument set this target contributes; repackaging also asks for
    /// host networking.
    pub open spec fn spec_args(&self) -> Seq<Seq<char>> {
        seq!["--network"@, "host"@] + arg_pair(
            "DATA_IMAGE_PUBLISH_SIZE_GIB"@,
            self.data_image_publish_size_gib@,
        ) + arg_pair("DATA_IMAGE_SIZE_GIB"@, self.data_image_size_gib@) + arg_pair(
            "IMAGE_FORMAT"@,
            self.image_format@,
        ) + arg_pair("IMAGE_NAME"@, self.name@) + arg_pair(
            "OS_IMAGE_PUBLISH_SIZE_GIB"@,
            self.os_image_publish_size_gib@,
        ) + arg_pair("OS_IMAGE_SIZE_GIB"@, self.os_image_size_gib@) + arg_pair(
            "PARTITION_PLAN"@,
            self.partition_plan@,
        ) + arg_pair("VARIANT"@, self.variant@) + arg_pair("BUILD_ID"@, self.version_build@)
            + arg_pair("VERSION_ID"@, self.version_image@) + feature_args(
            self.image_features.deep_view(),
        )
    }

    pub fn build_args(&self) -> (r: Vec<String>)
        requires
            features_wf(self.image_features.deep_view()),
        ensures
            r.deep_view() == self.spec_args(),
    {
        let mut args: Vec<String> = Vec::new();
        args.push("--network".to_owned());
        args.push("host".to_owned());
        proof {
            assert(args.deep_view() =~~= seq!["--network"@, "host"@]);
        }
        build_arg(
            &mut args,
            "DATA_IMAGE_PUBLISH_SIZE_GIB",
            self.data_image_publish_size_gib.as_str(),
        );
        build_arg(&mut args, "DATA_IMAGE_SIZE_GIB", self.data_image_size_gib.as_str());
        build_arg(&mut args, "IMAGE_FORMAT", self.image_format.as_str());
        build_arg(&mut args, "IMAGE_NAME", self.name.as_str());
        build_arg(&mut args, "OS_IMAGE_PUBLISH_SIZE_GIB", self.os_image_publish_size_gib.as_str());
        build_arg(&mut args, "OS_IMAGE_SIZE_GIB", self.os_image_size_gib.as_str());
        build_arg(&mut args, "PARTITION_PLAN", self.partition_plan.as_str());
        build_arg(&mut args, "VARIANT", self.variant.as_str());
        build_arg(&mut args, "BUILD_ID", self.version_build.as_str());
        build_arg(&mut args, "VERSION_ID", self.version_image.as_str());
        push_feature_args(&mut args, &self.image_features);
        proof {
            assert(args.deep_view() =~= self.spec_args());
        }
        args
    }
}

/// The target a build drives, with its argument set.
pub enum TargetBuildArgs {
    Package(PackageBuildArgs),
    Kit(KitBuildArgs),
    Variant(VariantBuildArgs),
    Repack(RepackVariantBuildArgs),
}

impl TargetBuildArgs {
    /// Which build type the target is.
    pub open spec fn spec_build_type(&self) -> BuildType {
        match self {
            TargetBuildArgs::Package(_) => BuildType::Package,
            TargetBuildArgs::Kit(_) => BuildType::Kit,
            TargetBuildArgs::Variant(_) => BuildType::Variant,
            TargetBuildArgs::Repack(_) => BuildType::Repack,
        }
    }

    pub fn build_type(&self) -> (r: BuildType)
        ensures
            r == self.spec_build_type(),
    {
        match self {
            TargetBuildArgs::Package(_) => BuildType::Package,
            TargetBuildArgs::Kit(_) => BuildType::Kit,
            TargetBuildArgs::Variant(_) => BuildType::Variant,
            TargetBuildArgs::Repack(_) => BuildType::Repack,
        }
    }

    /// The image features of the target, where it has any, form a set of
    /// fresh keys.
    pub open spec fn features_wf_of(&self) -> bool {
        match self {
            TargetBuildArgs::Variant(v) => features_wf(v.image_features.deep_view()),
            TargetBuildArgs::Repack(r) => features_wf(r.image_features.deep_view()),
            _ => true,
        }
    }

    /// Test `features_wf_of` before asking for the argument set.
    pub fn check_features(&self) -> (r: bool)
        ensures
            r == self.features_wf_of(),
    {
        match self {
            TargetBuildArgs::Variant(v) => check_image_features(&v.image_features),
            TargetBuildArgs::Repack(r) => check_image_features(&r.image_features),
            TargetBuildArgs::Package(_) => true,
            TargetBuildArgs::Kit(_) => true,
        }
    }

    /// The argument set of whichever target this is.
    pub open spec fn spec_args(&self) -> Seq<Seq<char>> {
        match self {
            TargetBuildArgs::Package(p) => p.spec_args(),
            TargetBuildArgs::Kit(k) => k.spec_args(),
            TargetBuildArgs::Variant(v) => v.spec_args(),
            TargetBuildArgs::Repack(r) => r.spec_args(),
        }
    }

    pub fn build_args(&self) -> (r: Vec<String>)
        requires
            self.features_wf_of(),
        ensures
            r.deep_view() == self.spec_args(),
    {
        match self {
            TargetBuildArgs::Package(p) => p.build_args(),
            TargetBuildArgs::Kit(k) => k.build_args(),
            TargetBuildArgs::Variant(v) => v.build_args(),
            TargetBuildArgs::Repack(r) => r.build_args(),
        }
    }
}

} // verus!
