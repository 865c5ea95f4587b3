//! How module references are turned into source names and source text.
use vstd::prelude::*;

verus! {

/// Finds the sources that module references name.
pub trait Resolver {
    /// Canonizes `module <name>` into a fully qualified source name; `from`
    /// is the source the name was referenced in.
    fn canonize_bare(name: &str, from: &str) -> Option<String>;

    /// Canonizes `module _ in "<name>"` into a fully qualified source name;
    /// `from` is the source the name was referenced in.
    fn canonize(name: &str, from: &str) -> Option<String>;

    /// The contents of the source a canonized name names.
    fn resolve(canon: &str) -> Option<String>;
}

/// A resolver that finds nothing.
pub struct FailingResolver;

impl Resolver for FailingResolver {
    fn canonize_bare(_name: &str, _from: &str) -> (r: Option<String>)
        ensures
            r is None,
    {
        None
    }

    fn canonize(_name: &str, _from: &str) -> (r: Option<String>)
        ensures
            r is None,
    {
        None
    }

    fn resolve(_canon: &str) -> (r: Option<String>)
        ensures
            r is None,
    {
        None
    }
}

/// The source name a bare module name stands for: the name with the
/// source extension.
pub fn bare_source_name(name: &str) -> (source: String)
    ensures
        source@ == name@ + ".hc"@,
{
    let mut source = name.to_owned();
    source.append(".hc");
    source
}

} // verus!
