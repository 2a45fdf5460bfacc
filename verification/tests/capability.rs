use dht_gossip::capability::{AgentPubKey, Assignees, CapAccess, CapGrant, CapSecret, FunctionName, GrantedFunction, GrantedFunctions, ZomeCallCapGrant, ZomeName, AGENT_KEY_BYTES, CAP_SECRET_BYTES};

fn agent(n: u8) -> AgentPubKey {
    AgentPubKey([n; 39])
}

fn secret(n: u8) -> CapSecret {
    CapSecret([n; 64])
}

fn function(zome: &str, name: &str) -> GrantedFunction {
    (ZomeName(zome.to_string()), FunctionName(name.to_string()))
}

fn functions(names: &[(&str, &str)]) -> GrantedFunctions {
    let mut set = GrantedFunctions::new();
    for (zome, name) in names {
        set.insert(function(zome, name));
    }
    set
}

fn assignees(agents: &[u8]) -> Assignees {
    let mut set = Assignees::new();
    for a in agents {
        set.insert(agent(*a));
    }
    set
}

fn grant(access: CapAccess) -> CapGrant {
    CapGrant::from(ZomeCallCapGrant::new(
        "tag".to_string(),
        access,
        functions(&[("zome", "read"), ("zome", "write")]),
    ))
}

#[test]
fn sizes() {
    assert_eq!(CAP_SECRET_BYTES, 64);
    assert_eq!(AGENT_KEY_BYTES, 39);
}

#[test]
fn secrets_compare_by_every_byte() {
    let a = secret(1);
    let mut b = secret(1);
    assert!(a.same_as(&b));
    b.0[63] = 2;
    assert!(!a.same_as(&b));
    assert!(!b.same_as(&a));
    let mut c = secret(1);
    c.0[0] = 0;
    assert!(!a.same_as(&c));
    let mut d = secret(1);
    d.0[30] ^= 0x80;
    assert!(!a.same_as(&d));
}

#[test]
fn agents_compare_by_every_byte() {
    let a = agent(9);
    let mut b = agent(9);
    assert!(a.same_as(&b));
    b.0[38] = 8;
    assert!(!a.same_as(&b));
    let mut c = agent(9);
    c.0[0] = 8;
    assert!(!c.same_as(&a));
}

#[test]
fn sets_hold_each_member_once() {
    let mut set = Assignees::new();
    assert!(!set.contains(&agent(1)));
    assert!(set.insert(agent(1)));
    assert!(!set.insert(agent(1)));
    assert!(set.insert(agent(2)));
    assert!(set.contains(&agent(1)));
    assert!(set.contains(&agent(2)));
    assert!(!set.contains(&agent(3)));

    let mut fns = GrantedFunctions::new();
    assert!(!fns.contains(&function("a", "b")));
    assert!(fns.insert(function("a", "b")));
    assert!(!fns.insert(function("a", "b")));
    assert!(fns.insert(function("a", "c")));
    assert!(fns.insert(function("b", "b")));
    assert!(fns.contains(&function("a", "b")));
    assert!(fns.contains(&function("a", "c")));
    assert!(fns.contains(&function("b", "b")));
    assert!(!fns.contains(&function("b", "c")));
    assert!(!fns.contains(&function("ab", "")));
}

#[test]
fn tag_matches_the_tag_of_a_zome_call_grant() {
    let g = grant(CapAccess::from(()));
    assert!(g.tag_matches("tag"));
    assert!(!g.tag_matches("tags"));
    assert!(!g.tag_matches(""));
    assert!(!g.tag_matches("Tag"));
    let authorship = CapGrant::from(agent(1));
    assert!(!authorship.tag_matches("tag"));
    assert!(!authorship.tag_matches(""));
}

#[test]
fn authorship_is_valid_for_the_author() {
    let g = CapGrant::from(agent(1));
    assert!(g.is_valid(&function("any", "thing"), &agent(1), &secret(0)));
    assert!(!g.is_valid(&function("any", "thing"), &agent(2), &secret(0)));
}

#[test]
fn unrestricted_grant_is_valid_for_its_functions() {
    let g = grant(CapAccess::from(()));
    assert!(g.is_valid(&function("zome", "read"), &agent(1), &secret(0)));
    assert!(g.is_valid(&function("zome", "write"), &agent(2), &secret(9)));
    assert!(!g.is_valid(&function("zome", "delete"), &agent(1), &secret(0)));
    assert!(!g.is_valid(&function("other", "read"), &agent(1), &secret(0)));
}

#[test]
fn transferable_grant_asks_for_the_secret() {
    let g = grant(CapAccess::from(secret(7)));
    assert!(g.is_valid(&function("zome", "read"), &agent(1), &secret(7)));
    assert!(g.is_valid(&function("zome", "read"), &agent(2), &secret(7)));
    assert!(!g.is_valid(&function("zome", "read"), &agent(1), &secret(8)));
    assert!(!g.is_valid(&function("zome", "nope"), &agent(1), &secret(7)));
}

#[test]
fn assigned_grant_asks_for_the_secret_and_the_agent() {
    let g = grant(CapAccess::from((secret(7), assignees(&[1, 2]))));
    assert!(g.is_valid(&function("zome", "read"), &agent(1), &secret(7)));
    assert!(g.is_valid(&function("zome", "write"), &agent(2), &secret(7)));
    assert!(!g.is_valid(&function("zome", "read"), &agent(3), &secret(7)));
    assert!(!g.is_valid(&function("zome", "read"), &agent(1), &secret(8)));
    assert!(!g.is_valid(&function("zome", "nope"), &agent(1), &secret(7)));
    let one = grant(CapAccess::assigned_to(secret(7), agent(5)));
    assert!(one.is_valid(&function("zome", "read"), &agent(5), &secret(7)));
    assert!(!one.is_valid(&function("zome", "read"), &agent(1), &secret(7)));
}

#[test]
fn is_authorized() {
    let open_to_all = CapAccess::from(());
    assert!(open_to_all.is_authorized(&agent(1), None));
    assert!(open_to_all.is_authorized(&agent(1), Some(&secret(3))));

    let transferable = CapAccess::from(secret(7));
    assert!(transferable.is_authorized(&agent(1), Some(&secret(7))));
    assert!(!transferable.is_authorized(&agent(1), Some(&secret(6))));
    assert!(!transferable.is_authorized(&agent(1), None));

    let assigned = CapAccess::from((secret(7), assignees(&[1, 2])));
    assert!(assigned.is_authorized(&agent(1), Some(&secret(7))));
    assert!(assigned.is_authorized(&agent(2), Some(&secret(7))));
    assert!(!assigned.is_authorized(&agent(3), Some(&secret(7))));
    assert!(!assigned.is_authorized(&agent(1), Some(&secret(6))));
    assert!(!assigned.is_authorized(&agent(1), None));

    let nobody = CapAccess::from((secret(7), Assignees::new()));
    assert!(!nobody.is_authorized(&agent(1), Some(&secret(7))));
}

#[test]
fn secret_of_an_access() {
    assert!(CapAccess::from(()).secret().is_none());
    assert_eq!(CapAccess::from(secret(7)).secret().unwrap().0, [7u8; 64]);
    assert_eq!(CapAccess::from((secret(8), assignees(&[1]))).secret().unwrap().0, [8u8; 64]);
    assert_eq!(CapAccess::assigned_to(secret(9), agent(1)).secret().unwrap().0, [9u8; 64]);
}

#[test]
fn new_grant_keeps_its_parts() {
    let g = ZomeCallCapGrant::new("t".to_string(), CapAccess::from(secret(1)), functions(&[("z", "f")]));
    assert_eq!(g.tag, "t");
    assert!(g.functions.contains(&function("z", "f")));
    assert!(matches!(g.access, CapAccess::Transferable { .. }));
    assert!(matches!(CapGrant::from(g), CapGrant::ZomeCall(_)));
    assert!(matches!(CapGrant::from(agent(4)), CapGrant::Authorship(_)));
}
