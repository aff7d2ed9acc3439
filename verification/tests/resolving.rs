use bpmd::bpmn_node::{ActivityMarker, ActivityType, BpmnNode, DataAux, DataType, TaskType};
use bpmd::config::Config;
use bpmd::graph::{Graph, NodeType};
use bpmd::id_matcher::{normalize, BestMatch, IdMatcher, SomeId};
use bpmd::ids::{LaneId, NodeId, PoolAndLane, PoolId, SdeId, TokenCoordinate};
use bpmd::lexer;
use bpmd::parser::{str_eq, ParseContext, Parser};
use bpmd::pebpmd::{PeBpmdMeta, PeBpmdSubType, PeBpmdType};

fn tc(n: usize) -> TokenCoordinate {
    TokenCoordinate { source_file_idx: 0, start: n, end: n + 1 }
}

fn task(text: &str, t: usize) -> NodeType {
    NodeType::RealNode {
        event: BpmnNode::Activity(ActivityType::Task(TaskType::Plain), ActivityMarker::default()),
        display_text: text.to_string(),
        tc: tc(t),
        transported_data: vec![],
        pe_bpmd_hides_protection_operations: false,
    }
}

fn data(text: &str, t: usize, sde: usize) -> NodeType {
    NodeType::RealNode {
        event: BpmnNode::Data(DataType::Object, DataAux { sde_id: SdeId(sde), pebpmd_protection: vec![] }),
        display_text: text.to_string(),
        tc: tc(t),
        transported_data: vec![],
        pe_bpmd_hides_protection_operations: false,
    }
}

/// Two pools ("Customer" with an anonymous lane, "Bank" with lane "Backoffice"), a task in each
/// (`@send`, `@check`), and a data object `@order` in the customer's pool.
fn parser() -> Parser {
    let mut g = Graph {
        nodes: Vec::new(),
        edges: Vec::new(),
        pools: Vec::new(),
        data_elements: Vec::new(),
        config: Config::default(),
        num_layers: 0,
        pe_bpmd_definitions: Vec::new(),
    };
    let p0 = g.add_pool(Some("Customer".to_string()), tc(1));
    let l0 = g.pools[0].add_lane(None, tc(2));
    let p1 = g.add_pool(Some("Bank".to_string()), tc(3));
    let l1 = g.pools[1].add_lane(Some("Backoffice".to_string()), tc(4));
    let n0 = g.add_node(task("Send order", 10), PoolAndLane { pool: p0, lane: l0 }, None);
    let n1 = g.add_node(task("Check order", 11), PoolAndLane { pool: p1, lane: l1 }, None);
    let n2 = g.add_node(data("Order", 12, 0), PoolAndLane { pool: p0, lane: l0 }, None);
    g.add_sde("order".to_string(), vec![n2]);
    let mut m = IdMatcher::new();
    m.register_pool(p0, vec![], Some("Customer".to_string()));
    m.register_lane(p0, l0, vec![], None);
    m.register_pool(p1, vec![], Some("Bank".to_string()));
    m.register_lane(p1, l1, vec![], Some("Backoffice".to_string()));
    m.register_node(n0, vec!["send".to_string()], &g);
    m.register_node(n1, vec!["check".to_string()], &g);
    m.register_node(n2, vec!["order".to_string()], &g);
    Parser { graph: g, context: ParseContext { id_matcher: m, current_token_coordinate: tc(99) } }
}

fn meta() -> PeBpmdMeta {
    PeBpmdMeta { stroke_color: None, fill_color: None }
}

fn common(kind: lexer::PeBpmdSubType) -> lexer::ComputationCommon {
    lexer::ComputationCommon {
        pebpmd_type: kind,
        in_protect: vec![],
        in_unprotect: vec![],
        out_protect: vec![],
        out_unprotect: vec![],
        data_without_protection: vec![],
        data_already_protected: vec![],
        software_operators: vec![],
        hardware_operators: vec![],
        external_root_access: vec![],
        tc: tc(50),
    }
}

#[test]
fn normalize_replaces_disallowed_characters() {
    assert_eq!(normalize("Send order!"), "Send-order-");
    assert_eq!(normalize("a_b-C9"), "a_b-C9");
    assert_eq!(normalize(""), "");
}

#[test]
fn str_eq_compares_characters() {
    assert!(str_eq("tee", "tee"));
    assert!(!str_eq("tee", "mpc"));
    assert!(!str_eq("tee", "te"));
}

#[test]
fn haystacks_combine_pool_lane_and_node_names() {
    let p = parser();
    let m = &p.context.id_matcher;
    assert_eq!(m.pools[1].fuzzy_haystack, vec!["Bank".to_string()]);
    assert_eq!(m.lanes[1].fuzzy_haystack, vec!["Bank-Backoffice-".to_string(), "Backoffice-".to_string()]);
    assert_eq!(m.pool_names_and_empty(PoolId(1)), vec!["Bank".to_string(), String::new()]);
    assert_eq!(m.pool_names_and_empty(PoolId(7)), vec![String::new()]);
    assert!(m.nondata_nodes[0].fuzzy_haystack.contains(&"Customer-Send-order".to_string()));
    assert!(m.nondata_nodes[0].fuzzy_haystack.contains(&"send".to_string()));
    assert_eq!(m.data_nodes.len(), 1);
}

#[test]
fn exact_id_wins() {
    let p = parser();
    let m = &p.context.id_matcher;
    assert_eq!(m.find_nondata_node_id("send", None), Some(NodeId(0)));
    assert_eq!(m.find_data_node_id("order", None), Some(NodeId(2)));
    assert_eq!(m.find_any_node_id("check", None), Some(NodeId(1)));
}

#[test]
fn fuzzy_names_resolve() {
    let p = parser();
    let m = &p.context.id_matcher;
    assert_eq!(m.find_pool_id("Customer"), Some(PoolId(0)));
    assert_eq!(m.find_pool_id("Bank"), Some(PoolId(1)));
    assert_eq!(m.find_lane_id("Backoffice"), Some((PoolId(1), LaneId(0))));
    assert_eq!(m.find_nondata_node_id("Check order", None), Some(NodeId(1)));
    assert_eq!(m.find_nondata_node_id("Check order", Some(PoolId(0))), None);
}

#[test]
fn unknown_names_resolve_to_nothing() {
    let p = parser();
    let m = &p.context.id_matcher;
    assert_eq!(m.find_pool_id("zzz"), None);
    assert_eq!(m.find_nondata_node_id("qqq", None), None);
    assert_eq!(m.find_lane_id("xyz"), None);
}

#[test]
fn secure_channel_resolves() {
    let mut p = parser();
    let sc = lexer::SecureChannel {
        sender: Some(("send".to_string(), tc(20))),
        receiver: Some(("check".to_string(), tc(21))),
        argument_ids: vec![("order".to_string(), tc(22))],
        tc: tc(23),
    };
    let r = p.parse_pe_bpmd(lexer::PeBpmd { kind: lexer::PeBpmdType::SecureChannel(sc), meta: meta() });
    assert!(r.is_ok());
    assert_eq!(p.graph.pe_bpmd_definitions.len(), 1);
    match &p.graph.pe_bpmd_definitions[0].kind {
        PeBpmdType::SecureChannel(sc) => {
            assert_eq!(sc.sender, Some((NodeId(0), tc(20))));
            assert_eq!(sc.receiver, Some((NodeId(1), tc(21))));
            assert_eq!(sc.permitted_ids, vec![(SdeId(0), tc(22))]);
            assert_eq!(sc.tc, tc(23));
        },
        _ => panic!("a secure channel was expected"),
    }
}

#[test]
fn secure_channel_with_unknown_sender_is_refused() {
    let mut p = parser();
    let sc = lexer::SecureChannel {
        sender: Some(("nobody".to_string(), tc(20))),
        receiver: None,
        argument_ids: vec![],
        tc: tc(23),
    };
    let r = p.parse_pe_bpmd(lexer::PeBpmd { kind: lexer::PeBpmdType::SecureChannel(sc), meta: meta() });
    let e = r.unwrap_err();
    assert_eq!(e, vec![("Sender node with ID (nobody) was not found. Have you defined it?".to_string(), tc(20))]);
    assert!(p.graph.pe_bpmd_definitions.is_empty());
}

#[test]
fn empty_secure_channel_is_refused() {
    let mut p = parser();
    let sc = lexer::SecureChannel { sender: None, receiver: None, argument_ids: vec![], tc: tc(23) };
    let e = p.parse_pe_bpmd(lexer::PeBpmd { kind: lexer::PeBpmdType::SecureChannel(sc), meta: meta() }).unwrap_err();
    assert_eq!(e.len(), 1);
    assert!(e[0].0.starts_with("You need to define IDs"));
    assert_eq!(e[0].1, tc(99));
}

#[test]
fn tee_on_pool_needs_operators() {
    let mut p = parser();
    let c = common(lexer::PeBpmdSubType::Pool("Customer".to_string(), tc(30)));
    let e = p.parse_pe_bpmd(lexer::PeBpmd { kind: lexer::PeBpmdType::Tee(lexer::Tee { common: c }), meta: meta() }).unwrap_err();
    assert_eq!(e, vec![(
        "You must have a list of pool references for `(tee-software-operators @pool-1 @optional-pool-2)`.".to_string(),
        tc(99),
    )]);
}

#[test]
fn tee_tasks_default_to_containing_pool() {
    let mut p = parser();
    let c = common(lexer::PeBpmdSubType::Tasks(vec![("send".to_string(), tc(31))]));
    let r = p.parse_pe_bpmd(lexer::PeBpmd { kind: lexer::PeBpmdType::Tee(lexer::Tee { common: c }), meta: meta() });
    assert!(r.is_ok());
    match &p.graph.pe_bpmd_definitions[0].kind {
        PeBpmdType::Tee(t) => {
            assert!(matches!(&t.common.pebpmd_type, PeBpmdSubType::Tasks(ts) if ts == &vec![(NodeId(0), tc(31))]));
            assert_eq!(t.common.software_operators, vec![PoolId(0)]);
            assert_eq!(t.common.hardware_operators, vec![PoolId(0)]);
        },
        _ => panic!("a TEE was expected"),
    }
    assert!(matches!(p.graph.nodes[0].node_type, NodeType::RealNode { pe_bpmd_hides_protection_operations: true, .. }));
    assert!(matches!(p.graph.nodes[1].node_type, NodeType::RealNode { pe_bpmd_hides_protection_operations: false, .. }));
}

#[test]
fn mpc_tasks_refuse_in_unprotect_but_flag_tasks() {
    let mut p = parser();
    let mut c = common(lexer::PeBpmdSubType::Tasks(vec![("check".to_string(), tc(31))]));
    c.in_unprotect = vec![lexer::Protection { node: "send".to_string(), rv: None, tc: tc(32) }];
    let e = p.parse_pe_bpmd(lexer::PeBpmd { kind: lexer::PeBpmdType::Mpc(lexer::Mpc { common: c }), meta: meta() }).unwrap_err();
    assert_eq!(e.len(), 1);
    assert!(e[0].0.starts_with("mpc-tasks does not allow the mpc-in-unprotect attribute"));
    assert_eq!(e[0].1, tc(32));
    assert!(matches!(p.graph.nodes[1].node_type, NodeType::RealNode { pe_bpmd_hides_protection_operations: true, .. }));
    assert!(p.graph.pe_bpmd_definitions.is_empty());
}

#[test]
fn tee_tasks_in_two_pools_are_refused() {
    let mut p = parser();
    let c = common(lexer::PeBpmdSubType::Tasks(vec![("send".to_string(), tc(31)), ("check".to_string(), tc(33))]));
    let mut c = c;
    c.software_operators = vec![("Customer".to_string(), tc(40))];
    c.hardware_operators = vec![("Customer".to_string(), tc(41))];
    let e = p.parse_pe_bpmd(lexer::PeBpmd { kind: lexer::PeBpmdType::Tee(lexer::Tee { common: c }), meta: meta() }).unwrap_err();
    assert_eq!(e.len(), 7);
    assert_eq!(e[0], ("All tee-tasks must be in the same pool.".to_string(), tc(99)));
    assert_eq!(e[1], ("This node selector ..".to_string(), tc(31)));
    assert_eq!(e[2], (".. matches this node ..".to_string(), tc(10)));
    assert_eq!(e[3], (".. which is part of this pool.".to_string(), tc(1)));
    assert_eq!(e[6], (".. which is part of this pool.".to_string(), tc(3)));
}

#[test]
fn duplicate_annotation_is_refused() {
    let mut p = parser();
    let mut c = common(lexer::PeBpmdSubType::Lane("Backoffice".to_string(), tc(30)));
    c.software_operators = vec![("Bank".to_string(), tc(40))];
    c.in_protect = vec![lexer::Protection { node: "send".to_string(), rv: None, tc: tc(34) }];
    c.out_protect = vec![lexer::Protection { node: "send".to_string(), rv: None, tc: tc(35) }];
    let e = p.parse_pe_bpmd(lexer::PeBpmd { kind: lexer::PeBpmdType::Tee(lexer::Tee { common: c }), meta: meta() }).unwrap_err();
    assert_eq!(e.len(), 2);
    assert_eq!(e[0].1, tc(35));
    assert_eq!(e[1], ("This was the first use of the same ID".to_string(), tc(34)));
}

#[test]
fn operators_twice_are_refused() {
    let p = parser();
    let ops = vec![("Bank".to_string(), tc(40)), ("Bank".to_string(), tc(41))];
    let e = p.find_and_verify_hw_sw_operators("mpc", &ops, None, "hardware").unwrap_err();
    assert_eq!(e.len(), 3);
    assert_eq!(e[0].1, tc(41));
    assert_eq!(e[1], ("Previous reference to the same pool was here".to_string(), tc(40)));
    assert_eq!(e[2], ("This is the pool which both target".to_string(), tc(3)));
}

#[test]
fn missing_containing_pool_is_refused() {
    let p = parser();
    let ops = vec![("Bank".to_string(), tc(40)), ("Bank".to_string(), tc(47))];
    let ops = vec![ops[0].clone()];
    let e = p.find_and_verify_hw_sw_operators("tee", &ops, Some((PoolId(0), "lane")), "software").unwrap_err();
    assert_eq!(e.len(), 2);
    assert!(e[0].0.starts_with("The containing pool must always be part of the `(tee-software-operators ..)` list of tee-lane"));
    assert_eq!(e[0].1, tc(40));
    assert_eq!(e[1], ("This pool was referenced (but is not the containing pool)".to_string(), tc(3)));
}

#[test]
fn missing_attribute_message() {
    let p = parser();
    let e = p.smthng_missing_error("tee", "pool", " Try again.");
    assert_eq!(e, vec![("tee-pool is missing. Please define it. Try again.".to_string(), tc(99))]);
}

#[test]
fn best_match_prefers_exact_then_strictly_higher_score() {
    let pool = SomeId::PoolId(PoolId(0));
    let node = SomeId::NodeId(NodeId(1));
    let kept = BestMatch::Fuzzy(3, pool).maybe_update(BestMatch::Fuzzy(3, node));
    assert!(matches!(kept.found(), Some(SomeId::PoolId(PoolId(0)))));
    let replaced = BestMatch::Fuzzy(3, pool).maybe_update(BestMatch::Fuzzy(4, node));
    assert!(matches!(replaced.found(), Some(SomeId::NodeId(NodeId(1)))));
    let exact = BestMatch::ExactMatch(pool).maybe_update(BestMatch::ExactMatch(node));
    assert!(matches!(exact.found(), Some(SomeId::PoolId(PoolId(0)))));
    let from_none = BestMatch::NoMatch.maybe_update(BestMatch::Fuzzy(-5, node));
    assert!(matches!(from_none.found(), Some(SomeId::NodeId(NodeId(1)))));
    assert!(BestMatch::NoMatch.maybe_update(BestMatch::NoMatch).found().is_none());
}

#[test]
fn pool_found_before_nodes_when_exactly_named() {
    let mut p = parser();
    p.context.id_matcher.pools[0].ids.push("cust".to_string());
    assert!(matches!(p.context.id_matcher.find_pool_or_nondata_id("cust"), Some(SomeId::PoolId(PoolId(0)))));
    assert!(matches!(p.context.id_matcher.find_pool_or_nondata_id("send"), Some(SomeId::NodeId(NodeId(0)))));
}

#[test]
fn registered_lane_is_found_by_its_id_and_pools_stay_as_they_were() {
    let p = parser();
    let mut m = p.context.id_matcher;
    let before = m.find_pool_id("Bank");
    m.register_lane(PoolId(1), LaneId(1), vec!["l1".to_string()], Some("Frontdesk".to_string()));
    assert_eq!(m.find_lane_id("l1"), Some((PoolId(1), LaneId(1))));
    assert_eq!(m.find_pool_id("Bank"), before);
    assert_eq!(m.find_any_node_id("check", None), Some(NodeId(1)));
}

#[test]
fn data_node_search_keeps_to_its_pool() {
    let p = parser();
    let m = &p.context.id_matcher;
    assert_eq!(m.find_data_node_id("order", Some(PoolId(0))), Some(NodeId(2)));
    assert_eq!(m.find_data_node_id("order", Some(PoolId(1))), None);
}

#[test]
fn new_parser_starts_empty() {
    let p = Parser::new();
    assert!(p.graph.nodes.is_empty() && p.graph.pools.is_empty() && p.graph.edges.is_empty());
    assert_eq!(p.context.id_matcher.find_pool_id("anything"), None);
}
