use ruddy::symbol::Symbol;
use ruddy::tracking::{FileID, FileManager, Order, SourceMap, Span};

#[test]
fn spans_know_their_file_and_end() {
    assert!(FileID(0).is_generated());
    assert!(!FileID(2).is_generated());
    let span = FileID(2).span(3, 4);
    assert_eq!(span, Span { file_id: FileID(2), start: 3, width: 4 });
    assert_eq!(span.end(), 7);
    assert!(Span::generated(1, 1).is_generated());
}

#[test]
fn merge_covers_both_spans() {
    let a = FileID(1).span(2, 3);
    let b = FileID(1).span(4, 5);
    assert_eq!(a.merge(b), FileID(1).span(2, 7));
    assert_eq!(b.merge(a), FileID(1).span(2, 7));
    let inner = FileID(1).span(3, 1);
    assert_eq!(a.merge(inner), a);
}

#[test]
fn order_ranks_declarations() {
    let first = Symbol::generated();
    let order = Order::of(vec![first]);
    assert_eq!(order.rank(first), 0);
    let empty = Order::of(vec![]);
    assert_eq!(empty.rank(first), usize::MAX);
}

#[test]
fn source_map_reads_back_what_it_recorded() {
    let definition = Symbol::generated();
    let mut map = SourceMap::default();
    let span = FileID(1).span(15, 3);
    let at = map.record(definition, 10, span);
    assert_eq!(map.span(at), span);
    assert_eq!(map.located(at), Some(span));
    let again = map.record(definition, 10, FileID(1).span(15, 3));
    assert_eq!(again, at);
    let elsewhere = map.record(definition, 10, FileID(1).span(20, 1));
    assert_ne!(elsewhere, at);
    let generated = map.record(definition, 10, Span::generated(15, 3));
    assert_ne!(generated, at);
    assert_eq!(map.located(generated), None);
}

#[test]
fn file_manager_registers_in_order() {
    let mut files = FileManager::new();
    assert_eq!(files.get_file(FileID(0)).path, "@GENERATED-CODE");
    let id = files.register_new_file("main.hc".to_string(), "let x = 1".to_string());
    assert_eq!(id, FileID(1));
    let file = files.get_file(id);
    assert_eq!(file.path, "main.hc");
    assert_eq!(file.content, "let x = 1");
}
