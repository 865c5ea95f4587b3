use std::collections::{BTreeMap, BTreeSet, HashMap};

use ruddy::reification::construction::{Condition, Demand, Facts, Property};
use ruddy::reification::conventions::{Edge, Graph, Instance, Needs, Shape};
use ruddy::reification::interface::{Interface, Node as Port};
use ruddy::reification::recipe::Construction;
use ruddy::reification::{Descriptor, Node};

fn descriptor(nodes: Vec<Node>) -> Descriptor {
    Descriptor { nodes }
}

fn fields(pairs: &[(&str, u32)]) -> Vec<(String, u32)> {
    pairs.iter().map(|(name, at)| (name.to_string(), *at)).collect()
}

#[test]
fn validate_rejects_an_empty_descriptor() {
    assert_eq!(descriptor(vec![]).validate(0), Err("empty runtime type descriptor"));
}

#[test]
fn validate_accepts_a_scalar() {
    assert_eq!(descriptor(vec![Node::Nat]).validate(0), Ok(()));
}

#[test]
fn validate_checks_parameter_bounds() {
    assert_eq!(descriptor(vec![Node::Parameter(0)]).validate(0), Err("invalid runtime type parameter"));
    assert_eq!(descriptor(vec![Node::Parameter(0)]).validate(1), Ok(()));
}

#[test]
fn validate_checks_references() {
    assert_eq!(descriptor(vec![Node::Array(3)]).validate(0), Err("invalid runtime type descriptor reference"));
}

#[test]
fn validate_checks_field_order() {
    let d = descriptor(vec![Node::Struct(fields(&[("b", 1), ("a", 1)])), Node::Nat]);
    assert_eq!(d.validate(0), Err("runtime type fields must be unique and sorted"));
    let d = descriptor(vec![Node::Struct(fields(&[("a", 1), ("a", 1)])), Node::Nat]);
    assert_eq!(d.validate(0), Err("runtime type fields must be unique and sorted"));
}

#[test]
fn validate_rejects_alias_cycles() {
    assert_eq!(descriptor(vec![Node::Alias(0)]).validate(0), Err("unguarded runtime type descriptor cycle"));
}

#[test]
fn validate_accepts_guarded_recursion() {
    let d = descriptor(vec![Node::Sum(fields(&[("cons", 1), ("nil", 2)])), Node::Struct(fields(&[("head", 3), ("tail", 0)])), Node::Struct(vec![]), Node::Int]);
    assert_eq!(d.validate(0), Ok(()));
}

#[test]
fn validate_rejects_duplicate_row_fields() {
    let d = descriptor(vec![
        Node::Extend([1, 2]),
        Node::Struct(fields(&[("a", 3)])),
        Node::Struct(fields(&[("a", 3)])),
        Node::Nat,
    ]);
    assert_eq!(d.validate(0), Err("duplicate runtime row field"));
}

#[test]
fn validate_rejects_mixed_row_extensions() {
    let d = descriptor(vec![
        Node::Extend([1, 2]),
        Node::Struct(fields(&[("a", 3)])),
        Node::Sum(fields(&[("b", 3)])),
        Node::Nat,
    ]);
    assert_eq!(d.validate(0), Err("invalid runtime row extension"));
}

#[test]
fn condition_constants() {
    assert!(Condition::yes().is_true());
    assert!(!Condition::yes().is_false());
    assert!(Condition::no().is_false());
    assert!(!Condition::no().is_true());
    let a = Condition::atom(1, Property::Constructible);
    assert!(!a.is_true());
    assert!(!a.is_false());
}

#[test]
fn condition_contradictions_vanish() {
    let both = Condition::atom(1, Property::Constructible).and(&Condition::atom(1, Property::Empty));
    assert!(both.is_false());
    let rows = Condition::atom(2, Property::EmptySumRow).and(&Condition::atom(2, Property::ConstructibleSumRow));
    assert!(rows.is_false());
}

#[test]
fn condition_and_or_absorb() {
    let a = Condition::atom(1, Property::Constructible);
    let b = Condition::atom(2, Property::Empty);
    assert!(a.and(&Condition::yes()).same(&a));
    assert!(a.or(&Condition::no()).same(&a));
    assert!(a.or(&Condition::yes()).is_true());
    assert!(a.and(&Condition::no()).is_false());
    assert!(a.or(&a.and(&b)).same(&a));
    assert!(a.and(&a.or(&b)).same(&a));
    assert!(a.and(&b).same(&b.and(&a)));
    assert!(!a.and(&b).same(&a));
}

#[test]
fn condition_parameters() {
    let c = Condition::atom(1, Property::Constructible).or(&Condition::atom(4, Property::Empty));
    assert_eq!(c.parameters(), BTreeSet::from([1, 4]));
    assert!(Condition::yes().parameters().is_empty());
}

#[test]
fn condition_retain_and_rename() {
    let a = Condition::atom(1, Property::Constructible);
    let b = Condition::atom(2, Property::Empty);
    let kept = a.and(&b).retain(&BTreeSet::from([1]));
    assert!(kept.same(&a));
    let renamed = a.rename(&HashMap::from([(1, 5)]));
    assert!(renamed.same(&Condition::atom(5, Property::Constructible)));
    assert!(a.rename(&HashMap::new()).is_true());
}

#[test]
fn condition_substitute_reads_facts() {
    let a = Condition::atom(1, Property::Constructible);
    let gone = a.substitute(&BTreeMap::from([(1, Facts::unavailable())]));
    assert!(gone.is_false());
    let moved = a.substitute(&BTreeMap::from([(1, Facts::parameter(9))]));
    assert!(moved.same(&Condition::atom(9, Property::Constructible)));
    let kept = a.substitute(&BTreeMap::new());
    assert!(kept.same(&a));
}

#[test]
fn demand_absorb_joins_conditions_and_ports() {
    let mut d = Demand { condition: Condition::atom(1, Property::Constructible), ports: BTreeSet::from([1]) };
    let other = Demand { condition: Condition::atom(2, Property::Empty), ports: BTreeSet::from([2]) };
    d.absorb(&other);
    assert_eq!(d.ports, BTreeSet::from([1, 2]));
    assert!(d.condition.same(&Condition::atom(1, Property::Constructible).and(&Condition::atom(2, Property::Empty))));
    let fresh = Demand::default();
    assert!(fresh.condition.is_true());
    assert!(fresh.ports.is_empty());
}

#[test]
fn template_of_a_scalar() {
    let facts = Facts::template(&descriptor(vec![Node::Nat]), &[]);
    assert!(facts.constructible.is_true());
    assert!(facts.empty.is_false());
    assert!(facts.record_constructible.is_false());
    assert!(facts.record_empty.is_false());
    assert!(facts.sum_constructible.is_false());
    assert!(facts.sum_empty.is_false());
}

#[test]
fn template_of_a_parameter_is_the_parameter() {
    let facts = Facts::template(&descriptor(vec![Node::Parameter(0)]), &[7]);
    let p = Facts::parameter(7);
    assert!(facts.constructible.same(&p.constructible));
    assert!(facts.empty.same(&p.empty));
    assert!(facts.record_constructible.same(&p.record_constructible));
    assert!(facts.record_empty.same(&p.record_empty));
    assert!(facts.sum_constructible.same(&p.sum_constructible));
    assert!(facts.sum_empty.same(&p.sum_empty));
}

#[test]
fn template_of_a_record_of_a_parameter() {
    let d = descriptor(vec![Node::Struct(fields(&[("a", 1)])), Node::Parameter(0)]);
    let facts = Facts::template(&d, &[3]);
    assert!(facts.constructible.same(&Condition::atom(3, Property::Constructible)));
    assert!(facts.empty.same(&Condition::atom(3, Property::Empty)));
}

#[test]
fn template_of_an_uninhabited_recursion() {
    let d = descriptor(vec![Node::Struct(fields(&[("next", 0)]))]);
    let facts = Facts::template(&d, &[]);
    assert!(facts.constructible.is_false());
    assert!(facts.empty.is_true());
}

#[test]
fn analyze_finds_recipe_heights() {
    let d = descriptor(vec![Node::Struct(fields(&[("a", 1), ("b", 2)])), Node::Nat, Node::Boolean]);
    let c = Construction::analyze(&d);
    assert_eq!(c.possible, vec![true, true, true]);
    assert_eq!(c.rank, vec![Some(1), Some(0), Some(0)]);
    assert_eq!(c.review(&d), Ok(()));
}

#[test]
fn analyze_takes_the_shortest_case() {
    let d = descriptor(vec![Node::Sum(fields(&[("cons", 1), ("nil", 2)])), Node::Struct(fields(&[("head", 3), ("tail", 0)])), Node::Struct(vec![]), Node::Int]);
    let c = Construction::analyze(&d);
    assert_eq!(c.possible, vec![true, true, true, true]);
    assert_eq!(c.rank, vec![Some(1), Some(2), Some(0), Some(0)]);
    assert_eq!(c.review(&d), Ok(()));
}

#[test]
fn analyze_finds_no_value_of_an_endless_record() {
    let d = descriptor(vec![Node::Struct(fields(&[("next", 0)]))]);
    let c = Construction::analyze(&d);
    assert_eq!(c.possible, vec![false]);
    assert_eq!(c.rank, vec![None]);
    assert_eq!(c.review(&d), Err("construction evidence is unavailable: this type has no finite value".to_string()));
}

#[test]
fn review_names_the_path_to_a_function() {
    let d = descriptor(vec![Node::Struct(fields(&[("f", 1)])), Node::Arrow([2, 2]), Node::Nat]);
    let c = Construction::analyze(&d);
    assert_eq!(c.possible, vec![true, true, true]);
    assert_eq!(c.rank, vec![None, None, Some(0)]);
    assert_eq!(
        c.review(&d),
        Err("construction evidence is unavailable at $.f: function values have no automatic constructor".to_string())
    );
}

#[test]
fn review_names_the_path_into_an_array() {
    let d = descriptor(vec![Node::Array(1), Node::Any]);
    let c = Construction::analyze(&d);
    assert_eq!(c.rank[0], Some(0));
    assert_eq!(
        c.review(&d),
        Err("construction evidence is unavailable at $[]: the type's complete construction evidence is unavailable".to_string())
    );
}

#[test]
fn review_without_a_recipe() {
    let d = descriptor(vec![Node::Nat]);
    let c = Construction { possible: vec![true], rank: vec![None] };
    assert_eq!(c.review(&d), Err("construction evidence is unavailable: no finite construction recipe exists".to_string()));
}

fn arrow_interface() -> Interface {
    Interface {
        root: 0,
        nodes: vec![
            Port::Arrow { argument: 1, result: 1, port: Some(0), requirements: BTreeSet::from([(Some(0), 1)]) },
            Port::Value,
        ],
        ports: vec![BTreeSet::from([1])],
    }
}

#[test]
fn interface_validate_accepts_a_sound_interface() {
    let single = Interface { root: 0, nodes: vec![Port::Value], ports: vec![] };
    assert_eq!(single.validate(0, 0), Ok(()));
    assert_eq!(arrow_interface().validate(2, 0), Ok(()));
}

#[test]
fn interface_validate_errors() {
    let bad_root = Interface { root: 1, nodes: vec![Port::Value], ports: vec![] };
    assert_eq!(bad_root.validate(0, 0), Err("invalid callable interface root".to_string()));
    let bad_port = Interface { root: 0, nodes: vec![Port::Value], ports: vec![BTreeSet::from([5])] };
    assert_eq!(bad_port.validate(3, 0), Err("invalid callable demand parameter".to_string()));
    let bad_reference = Interface { root: 0, nodes: vec![Port::Array(2)], ports: vec![] };
    assert_eq!(bad_reference.validate(0, 0), Err("invalid callable shape reference".to_string()));
    let bad_parameter = Interface { root: 0, nodes: vec![Port::Parameter(0)], ports: vec![] };
    assert_eq!(bad_parameter.validate(2, 1), Err("invalid callable shape parameter".to_string()));
    let unreachable = Interface { root: 0, nodes: vec![Port::Value, Port::Value], ports: vec![] };
    assert_eq!(unreachable.validate(0, 0), Err("unreachable callable shape".to_string()));
    let unbound = Interface { root: 0, nodes: vec![Port::Value], ports: vec![BTreeSet::from([1])] };
    assert_eq!(unbound.validate(2, 0), Err("unbound callable demand port".to_string()));
    let mut inconsistent = arrow_interface();
    inconsistent.nodes[0] = Port::Arrow { argument: 1, result: 1, port: Some(0), requirements: BTreeSet::new() };
    assert_eq!(inconsistent.validate(2, 0), Err("inconsistent callable demand port".to_string()));
    let mut missing = arrow_interface();
    missing.nodes[0] = Port::Arrow { argument: 1, result: 1, port: Some(3), requirements: BTreeSet::new() };
    assert_eq!(missing.validate(2, 0), Err("invalid callable demand port".to_string()));
}

#[test]
fn import_builds_shapes_and_ports() {
    let mut graph = Graph::default();
    let root = arrow_interface().import(&mut graph);
    assert_eq!(root, 0);
    assert_eq!(graph.shapes.len(), 2);
    assert_eq!(graph.needs.len(), 1);
    match &graph.shapes[0] {
        Shape::Arrow { argument, result, needs } => {
            assert_eq!((*argument, *result, *needs), (1, 1, 0));
        }
        other => panic!("expected an arrow, got {other:?}"),
    }
    assert!(matches!(graph.shapes[1], Shape::Value));
    assert!(graph.needs[0].variable);
    assert_eq!(graph.needs[0].port, Some(BTreeSet::from([1])));
}

#[test]
fn export_after_import_gives_the_interface_back() {
    let interface = arrow_interface();
    let mut graph = Graph::default();
    let root = interface.import(&mut graph);
    let solved = vec![BTreeSet::from([(Some(0), 1)])];
    let exported = Interface::export(&graph, root, &HashMap::from([(1, 1)]), &solved);
    assert_eq!(exported.root, interface.root);
    assert_eq!(exported.ports, interface.ports);
    assert_eq!(exported.nodes.len(), 2);
    match &exported.nodes[0] {
        Port::Arrow { argument, result, port, requirements } => {
            assert_eq!((*argument, *result, *port), (1, 1, Some(0)));
            assert_eq!(requirements, &BTreeSet::from([(Some(0), 1)]));
        }
        other => panic!("expected an arrow, got {other:?}"),
    }
    assert!(matches!(exported.nodes[1], Port::Value));
    assert_eq!(exported.validate(2, 0), Ok(()));
}

#[test]
fn import_without_a_port_reads_requirements() {
    let interface = Interface {
        root: 0,
        nodes: vec![Port::Arrow { argument: 1, result: 1, port: None, requirements: BTreeSet::from([(None, 4)]) }, Port::Value],
        ports: vec![],
    };
    let mut graph = Graph::default();
    let root = interface.import(&mut graph);
    assert_eq!(root, 0);
    assert_eq!(graph.needs.len(), 1);
    assert_eq!(graph.needs[0].direct, BTreeSet::from([4]));
    assert!(graph.needs[0].edges.is_empty());
    assert!(!graph.needs[0].variable);
}

#[test]
fn graph_union_and_select() {
    let mut graph = Graph::default();
    let a = graph.need(Needs::default());
    let b = graph.need(Needs::default());
    let joined = graph.union(vec![a, b]);
    assert_eq!(joined, 2);
    assert_eq!(graph.needs[2].edges.len(), 2);
    assert_eq!(graph.needs[2].edges[0].source, a);
    assert_eq!(graph.needs[2].edges[1].source, b);
    let picked = graph.select(a, BTreeSet::from([7]));
    assert_eq!(picked, 3);
    assert_eq!(graph.needs[3].edges.len(), 1);
    assert_eq!(graph.needs[3].edges[0].retain, Some(BTreeSet::from([7])));
}

#[test]
fn graph_exposed_follows_aliases() {
    let mut graph = Graph::default();
    let value = graph.shape(Shape::Value);
    let alias = graph.shape(Shape::Alias(value));
    let again = graph.shape(Shape::Alias(alias));
    assert_eq!(graph.exposed_id(again), value);
    assert!(matches!(graph.exposed(again), Shape::Value));
}

fn needs_with(f: impl FnOnce(&mut Needs)) -> Needs {
    let mut needs = Needs::default();
    f(&mut needs);
    needs
}

#[test]
fn solve_follows_edges_redirects_and_instances() {
    let mut graph = Graph::default();
    graph.need(needs_with(|n| n.direct = BTreeSet::from([1])));
    graph.need(needs_with(|n| {
        n.edges = vec![Edge { source: 0, substitute: BTreeMap::from([(1, BTreeSet::from([2, 3]))]), retain: Some(BTreeSet::from([2])) }]
    }));
    graph.need(needs_with(|n| n.redirect = Some(0)));
    graph.need(needs_with(|n| {
        n.variable = true;
        n.port = Some(BTreeSet::from([5]));
    }));
    graph.need(needs_with(|n| {
        n.instance = Some(Instance { source: 3, substitute: BTreeMap::from([(5, BTreeSet::from([6]))]), ports: BTreeMap::new() })
    }));
    graph.need(needs_with(|n| n.direct = BTreeSet::from([5])));
    graph.need(needs_with(|n| n.instance = Some(Instance { source: 3, substitute: BTreeMap::new(), ports: BTreeMap::from([(3, 5)]) })));
    let values = graph.solve();
    assert_eq!(values.len(), 7);
    assert_eq!(values[0], BTreeSet::from([(None, 1)]));
    assert_eq!(values[1], BTreeSet::from([(None, 2)]));
    assert_eq!(values[2], BTreeSet::from([(None, 1)]));
    assert_eq!(values[3], BTreeSet::from([(Some(3), 5)]));
    assert_eq!(values[4], BTreeSet::from([(Some(3), 6)]));
    assert_eq!(values[5], BTreeSet::from([(None, 5)]));
    assert_eq!(values[6], BTreeSet::from([(None, 5)]));
}

#[test]
fn solve_reaches_through_cycles() {
    let mut graph = Graph::default();
    graph.need(needs_with(|n| {
        n.direct = BTreeSet::from([1]);
        n.edges = vec![Edge { source: 1, substitute: BTreeMap::new(), retain: None }];
    }));
    graph.need(needs_with(|n| {
        n.direct = BTreeSet::from([2]);
        n.edges = vec![Edge { source: 0, substitute: BTreeMap::new(), retain: None }];
    }));
    let values = graph.solve();
    assert_eq!(values[0], BTreeSet::from([(None, 1), (None, 2)]));
    assert_eq!(values[1], BTreeSet::from([(None, 1), (None, 2)]));
}

#[test]
fn solve_of_an_imported_port() {
    let mut graph = Graph::default();
    arrow_interface().import(&mut graph);
    assert_eq!(graph.solve(), vec![BTreeSet::from([(Some(0), 1)])]);
}

#[test]
fn impossible_callables_make_their_holders_unavailable() {
    let mut graph = Graph::default();
    let need = graph.need(Needs::default());
    let record = graph.shape(Shape::Record(vec![("f".to_string(), 1)]));
    graph.shape(Shape::Arrow { argument: 2, result: 2, needs: need });
    graph.shape(Shape::Value);
    graph.shape(Shape::Arrow { argument: 1, result: 2, needs: need });
    assert_eq!(record, 0);
    let impossible = vec![Demand { condition: Condition::no(), ports: BTreeSet::new() }];
    assert_eq!(graph.unavailable_construction_values(&impossible), vec![true, true, false, true]);
    let possible = vec![Demand::default()];
    assert_eq!(graph.unavailable_construction_values(&possible), vec![false, false, false, false]);
}

#[test]
fn supply_aliases_open_shapes() {
    let mut graph = Graph::default();
    graph.shape(Shape::Lazy);
    graph.shape(Shape::Value);
    graph.supply(0, 1);
    assert!(matches!(graph.shapes[0], Shape::Alias(1)));
    let mut graph = Graph::default();
    graph.shape(Shape::Parameter(0));
    graph.shape(Shape::Value);
    graph.supply(0, 1);
    assert!(matches!(graph.shapes[0], Shape::Alias(1)));
    let mut graph = Graph::default();
    graph.shape(Shape::Sealed);
    graph.shape(Shape::Parameter(3));
    graph.supply(0, 1);
    assert!(matches!(graph.shapes[1], Shape::Sealed));
    assert!(matches!(graph.shapes[0], Shape::Sealed));
}

fn two_callables(graph: &mut Graph) {
    for _ in 0..4 {
        graph.shape(Shape::Value);
    }
    graph.shape(Shape::Arrow { argument: 0, result: 1, needs: 0 });
    graph.shape(Shape::Arrow { argument: 2, result: 3, needs: 1 });
}

#[test]
fn supply_merges_variable_demands() {
    let mut graph = Graph::default();
    two_callables(&mut graph);
    graph.need(needs_with(|n| {
        n.variable = true;
        n.direct = BTreeSet::from([1]);
    }));
    graph.need(needs_with(|n| {
        n.variable = true;
        n.direct = BTreeSet::from([2]);
    }));
    graph.supply(4, 5);
    assert_eq!(graph.needs[0].redirect, Some(1));
    assert!(graph.needs[0].direct.is_empty());
    assert_eq!(graph.needs[1].direct, BTreeSet::from([1, 2]));
    assert_eq!(graph.solve()[0], BTreeSet::from([(None, 1), (None, 2)]));
}

#[test]
fn join_reads_the_offered_demand() {
    let mut graph = Graph::default();
    two_callables(&mut graph);
    graph.need(needs_with(|n| {
        n.variable = true;
        n.port = Some(BTreeSet::from([1]));
    }));
    graph.need(needs_with(|n| n.direct = BTreeSet::from([7])));
    graph.join(4, 5);
    assert!(!graph.needs[0].variable);
    assert_eq!(graph.needs[0].port, None);
    assert_eq!(graph.needs[0].edges.len(), 1);
    assert_eq!(graph.needs[0].edges[0].source, 1);
    assert_eq!(graph.needs[1].edges.len(), 0);
    assert_eq!(graph.solve()[0], BTreeSet::from([(None, 7)]));
}

#[test]
fn supply_fits_record_members_by_name() {
    let mut graph = Graph::default();
    graph.shape(Shape::Record(vec![("a".to_string(), 2), ("b".to_string(), 3)]));
    graph.shape(Shape::Record(vec![("b".to_string(), 4)]));
    graph.shape(Shape::Lazy);
    graph.shape(Shape::Lazy);
    graph.shape(Shape::Value);
    graph.supply(0, 1);
    assert!(matches!(graph.shapes[2], Shape::Lazy));
    assert!(matches!(graph.shapes[3], Shape::Alias(4)));
}

#[test]
fn validate_reports_an_alias_cycle() {
    assert_eq!(descriptor(vec![Node::Alias(0)]).validate(0), Err("unguarded runtime type descriptor cycle"));
}

#[test]
fn interface_validation_names_each_problem() {
    let interface = |root: u32, nodes: Vec<Port>, ports: Vec<BTreeSet<u32>>| Interface { root, nodes, ports };
    assert_eq!(interface(0, vec![], vec![]).validate(2, 0), Err("invalid callable interface root".to_owned()));
    assert_eq!(
        interface(0, vec![Port::Value, Port::Value], vec![]).validate(2, 0),
        Err("unreachable callable shape".to_owned())
    );
    assert_eq!(
        interface(0, vec![Port::Parameter(0)], vec![]).validate(2, 1),
        Err("invalid callable shape parameter".to_owned())
    );
    assert_eq!(interface(0, vec![Port::Parameter(1)], vec![]).validate(2, 1), Ok(()));
    assert_eq!(
        interface(0, vec![Port::Value], vec![BTreeSet::from([1])]).validate(2, 0),
        Err("unbound callable demand port".to_owned())
    );
}
