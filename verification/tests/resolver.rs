use ruddy::resolver::{bare_source_name, FailingResolver, Resolver};

#[test]
fn failing_resolver_finds_nothing() {
    assert_eq!(FailingResolver::canonize_bare("m", "main.hc"), None);
    assert_eq!(FailingResolver::canonize("m.hc", "main.hc"), None);
    assert_eq!(FailingResolver::resolve("/tmp/m.hc"), None);
}

#[test]
fn bare_names_gain_the_source_extension() {
    assert_eq!(bare_source_name("core"), "core.hc");
    assert_eq!(bare_source_name(""), ".hc");
}
