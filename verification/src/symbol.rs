//! Bundles and symbols: the names every definition is known by, fingerprinted
//! so that they are the same value in every run.
use vstd::prelude::*;

use semver::Version;
use twox_hash::XxHash3_64;

use crate::text::is_ascii_digit_spec;
use crate::text::chars_of;
use vstd::string::StringSliceAdditionalSpecFns;
use vstd::string::StringExecFns;
use vstd::utf8::encode_utf8;

verus! {

#[verifier::external_type_specification]
#[verifier::external_body]
pub struct ExVersion(Version);

/// The XXH3-64 hash of a byte string under the default seed and secret,
/// which the XXH3 specification pins down.
pub uninterp spec fn xxh3_64(bytes: Seq<u8>) -> u64;

/// `twox_hash::XxHash3_64::oneshot`: the XXH3-64 hash of `bytes`, named
/// `xxh3_64`.
#[verifier::external_body]
fn hash_bytes(bytes: &[u8]) -> (h: u64)
    ensures
        h == xxh3_64(bytes@),
{
    XxHash3_64::oneshot(bytes)
}

/// Whether a version carries build metadata: a function of the version.
pub uninterp spec fn build_metadata(version: Version) -> bool;

/// The text semver's `Display` writes for a version: a function of the
/// version.
pub uninterp spec fn version_text(version: Version) -> Seq<char>;

/// `semver::BuildMetadata::is_empty` on the version's build metadata,
/// negated: whether the version carries build metadata, named
/// `build_metadata`.
#[verifier::external_body]
fn has_build_metadata(version: &Version) -> (b: bool)
    ensures
        b == build_metadata(*version),
{
    !version.build.is_empty()
}

/// `semver::Version`'s `Display`: the version's text, named `version_text`.
#[verifier::external_body]
fn version_display(version: &Version) -> (text: String)
    ensures
        text@ == version_text(*version),
{
    format!("{version}")
}

/// The canonical identity text of a bundle: its name, `@`, and its
/// version's text.
pub open spec fn identity_text(name: Seq<char>, version: Version) -> Seq<char> {
    name + "@"@ + version_text(version)
}

/// A bundle's identity: an ASCII name and a version.
#[derive(Debug, PartialEq, Eq, Hash)]
pub struct Bundle {
    name: String,
    version: Version,
    hash: BundleHash,
}

/// A fingerprint of a bundle's identity.
#[derive(Debug, Clone, Copy, PartialEq, Eq, Structural, PartialOrd, Ord, Hash)]
pub struct BundleHash(u64);

/// A globally unique name for one variable, type or module: the bundle it
/// was minted in and the fingerprint of its path there.
#[derive(Debug, Clone, Copy, PartialEq, Eq, Structural, PartialOrd, Ord, Hash)]
pub struct Symbol {
    bundle: BundleHash,
    path: u64,
}

/// A symbol known to live in the module namespace.
#[derive(Debug, Clone, Copy, PartialEq, Eq, Structural, PartialOrd, Ord, Hash)]
pub struct Module(Symbol);

/// The four disjoint worlds a symbol can live in.
#[derive(Debug, Clone, Copy, PartialEq, Eq, Structural, Hash)]
pub enum Namespace {
    Terms,
    Types,
    Effects,
    Modules,
}

/// One component of a demangled name.
#[derive(Debug, Clone, PartialEq, Eq)]
pub struct Component {
    pub namespace: Namespace,
    pub name: String,
    pub disambiguator: Option<u32>,
}

/// A bundle name: an ASCII letter, then ASCII letters, digits, `_` or `-`.
pub open spec fn is_valid_name(name: Seq<char>) -> bool {
    &&& name.len() > 0
    &&& is_ascii_alpha(name[0])
    &&& forall|i: int|
        1 <= i < name.len() ==> is_ascii_alnum(#[trigger] name[i]) || name[i] == '_' || name[i]
            == '-'
}

pub open spec fn is_ascii_alpha(c: char) -> bool {
    ('a' <= c && c <= 'z') || ('A' <= c && c <= 'Z')
}

pub open spec fn is_ascii_alnum(c: char) -> bool {
    is_ascii_alpha(c) || is_ascii_digit_spec(c)
}

fn valid_name(name: &str) -> (b: bool)
    ensures
        b == is_valid_name(name@),
{
    let chars = chars_of(name);
    if chars.len() == 0 {
        return false;
    }
    let c = chars[0];
    if !(('a' <= c && c <= 'z') || ('A' <= c && c <= 'Z')) {
        return false;
    }
    let mut i: usize = 1;
    while i < chars.len()
        invariant
            1 <= i <= chars.len(),
            chars@ == name@,
            forall|k: int|
                1 <= k < i ==> is_ascii_alnum(#[trigger] chars@[k]) || chars@[k] == '_'
                    || chars@[k] == '-',
        decreases chars.len() - i,
    {
        let c = chars[i];
        if !(('a' <= c && c <= 'z') || ('A' <= c && c <= 'Z') || ('0' <= c && c <= '9') || c
            == '_' || c == '-') {
            return false;
        }
        i = i + 1;
    }
    true
}

impl Bundle {
    /// The bundle named `name` at `version`: none when the name is not a
    /// valid bundle name, and none for a version with build metadata, which
    /// the mangling could not tell apart. Its fingerprint is the XXH3-64
    /// hash of the UTF-8 bytes of its identity text.
    pub fn new(name: &str, version: Version) -> (bundle: Option<Bundle>)
        ensures
            bundle is Some <==> is_valid_name(name@) && !build_metadata(version),
            bundle matches Some(b) ==> b.spec_name() == name@ && b.spec_version() == version
                && b.spec_hash()@ == xxh3_64(encode_utf8(identity_text(name@, version))),
    {
        if !valid_name(name) || has_build_metadata(&version) {
            return None;
        }
        let mut canonical = String::from_str(name);
        canonical.append("@");
        let shown = version_display(&version);
        canonical.append(shown.as_str());
        proof {
            reveal_strlit("@");
            assert(canonical@ =~= identity_text(name@, version));
        }
        let hash = BundleHash::of(canonical.as_str());
        Some(Bundle { name: name.to_owned(), version, hash })
    }

    pub closed spec fn spec_name(&self) -> Seq<char> {
        self.name@
    }

    pub closed spec fn spec_hash(&self) -> BundleHash {
        self.hash
    }

    pub fn name(&self) -> (name: &str)
        ensures
            name@ == self.spec_name(),
    {
        self.name.as_str()
    }

    pub closed spec fn spec_version(&self) -> Version {
        self.version
    }

    pub fn version(&self) -> (version: &Version)
        ensures
            *version == self.spec_version(),
    {
        &self.version
    }

    pub fn hash(&self) -> (hash: BundleHash)
        ensures
            hash == self.spec_hash(),
    {
        self.hash
    }
}

impl View for BundleHash {
    type V = u64;

    closed spec fn view(&self) -> u64 {
        self.0
    }
}

impl BundleHash {
    /// The XXH3-64 fingerprint of a bundle's canonical identity text.
    fn of(canonical: &str) -> (hash: BundleHash)
        ensures
            hash@ == xxh3_64(canonical.spec_bytes()),
    {
        BundleHash(hash_bytes(canonical.as_bytes()))
    }

    pub fn bits(self) -> (bits: u64)
        ensures
            bits == self@,
    {
        self.0
    }
}

impl Symbol {
    pub closed spec fn spec_bundle(self) -> BundleHash {
        self.bundle
    }

    pub closed spec fn spec_path(self) -> u64 {
        self.path
    }

    /// The symbol of what no definition wrote.
    pub closed spec fn spec_generated() -> Symbol {
        Symbol { bundle: BundleHash(0), path: u64::MAX }
    }

    pub fn generated() -> (symbol: Symbol)
        ensures
            symbol == Symbol::spec_generated(),
    {
        Symbol { bundle: BundleHash(0), path: u64::MAX }
    }

    /// The symbol at a mangled path of a bundle: the bundle's fingerprint,
    /// with the XXH3-64 fingerprint of the path's bytes.
    pub fn at_path(bundle: BundleHash, path: &str) -> (symbol: Symbol)
        ensures
            symbol.spec_bundle() == bundle,
            symbol.spec_path() == xxh3_64(path.spec_bytes()),
    {
        Symbol { bundle, path: hash_bytes(path.as_bytes()) }
    }

    pub fn bundle(self) -> (bundle: BundleHash)
        ensures
            bundle == self.spec_bundle(),
    {
        self.bundle
    }

    pub fn bits(self) -> (bits: u64)
        ensures
            bits == self.spec_path(),
    {
        self.path
    }
}

/// A symbol is its bundle's fingerprint and its path's.
pub proof fn lemma_symbol_fields(a: Symbol, b: Symbol)
    requires
        a.spec_bundle()@ == b.spec_bundle()@,
        a.spec_path() == b.spec_path(),
    ensures
        a == b,
{
}

impl View for Module {
    type V = Symbol;

    closed spec fn view(&self) -> Symbol {
        self.0
    }
}

impl Module {
    pub fn symbol(self) -> (symbol: Symbol)
        ensures
            symbol == self@,
    {
        self.0
    }
}

/// The letter a namespace is written as in a mangled name.
pub open spec fn namespace_tag(namespace: Namespace) -> char {
    match namespace {
        Namespace::Terms => 'V',
        Namespace::Types => 'T',
        Namespace::Effects => 'E',
        Namespace::Modules => 'M',
    }
}

/// The namespace a letter stands for in a mangled name.
pub open spec fn namespace_of_tag(tag: char) -> Option<Namespace> {
    if tag == 'V' {
        Some(Namespace::Terms)
    } else if tag == 'T' {
        Some(Namespace::Types)
    } else if tag == 'E' {
        Some(Namespace::Effects)
    } else if tag == 'M' {
        Some(Namespace::Modules)
    } else {
        None
    }
}

/// Reading a namespace's tag back gives the namespace: no two namespaces
/// share a tag.
pub proof fn lemma_namespace_tag_round_trip(namespace: Namespace)
    ensures
        namespace_of_tag(namespace_tag(namespace)) == Some(namespace),
{
}

impl Namespace {
    fn tag(self) -> (tag: char)
        ensures
            tag == namespace_tag(self),
    {
        match self {
            Namespace::Terms => 'V',
            Namespace::Types => 'T',
            Namespace::Effects => 'E',
            Namespace::Modules => 'M',
        }
    }

    fn from_tag(tag: char) -> (namespace: Option<Namespace>)
        ensures
            namespace == namespace_of_tag(tag),
    {
        match tag {
            'V' => Some(Namespace::Terms),
            'T' => Some(Namespace::Types),
            'E' => Some(Namespace::Effects),
            'M' => Some(Namespace::Modules),
            _ => None,
        }
    }
}

} // verus!
