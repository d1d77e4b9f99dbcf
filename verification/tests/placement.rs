//! Checking a running cluster's placement, and planning an installation.
use shard_builder::json::Json;
use shard_builder::placement::{
    finish_verify, ids_present_in_shard, install_plan, is_sampled, other_shard, record_shard,
    request_body, resolve_shard_urls, shard_endpoint, PeerReply, PlacementReport,
};
use shard_builder::records::PointId;

fn object(members: Vec<(&str, Json)>) -> Json {
    Json::Object(members.into_iter().map(|(name, value)| (name.to_string(), value)).collect())
}

fn text(value: &str) -> Json {
    Json::Text(value.to_string())
}

/// What a peer answers about the shards it holds.
fn cluster(peer: u64, local: &[(u64, &str)], remote: &[(u64, u64)]) -> Json {
    let local = local
        .iter()
        .map(|(shard, state)| {
            object(vec![("shard_id", Json::Unsigned(*shard)), ("state", text(state))])
        })
        .collect();
    let remote = remote
        .iter()
        .map(|(shard, peer)| {
            object(vec![
                ("shard_id", Json::Unsigned(*shard)),
                ("peer_id", Json::Unsigned(*peer)),
                ("state", text("Active")),
            ])
        })
        .collect();
    object(vec![(
        "result",
        object(vec![
            ("peer_id", Json::Unsigned(peer)),
            ("local_shards", Json::List(local)),
            ("remote_shards", Json::List(remote)),
        ]),
    )])
}

fn peer(url: &str, reply: Json) -> PeerReply {
    PeerReply { url: url.to_string(), reply: Ok(reply) }
}

#[test]
fn every_shard_is_asked_at_the_peer_that_holds_it() {
    let replies = vec![
        peer("http://a", cluster(1, &[(0, "Active")], &[(1, 2)])),
        peer("http://b", cluster(2, &[(1, "Active")], &[(0, 1)])),
    ];
    match resolve_shard_urls(&replies, "c", 2, 1) {
        Ok(owners) => {
            assert_eq!(owners.url_of(0).map(String::as_str), Some("http://a"));
            assert_eq!(owners.url_of(1).map(String::as_str), Some("http://b"));
            assert_eq!(owners.url_of(2), None);
            assert_eq!(owners.peers_queried(), 2);
        }
        Err(message) => panic!("{message}"),
    }
}

fn resolve_refusal(replies: &Vec<PeerReply>, shards: u32) -> String {
    match resolve_shard_urls(replies, "c", shards, 1) {
        Ok(_) => panic!("should be refused"),
        Err(message) => message,
    }
}

#[test]
fn a_cluster_that_cannot_be_asked_is_refused() {
    let only_one = vec![peer("http://a", cluster(1, &[(0, "Active")], &[(1, 2)]))];
    let message = resolve_refusal(&only_one, 2);
    assert!(message.contains("1"), "the shard that nobody holds is named: {message}");

    let twice = vec![
        peer("http://a", cluster(1, &[(0, "Active")], &[])),
        peer("http://b", cluster(2, &[(0, "Active")], &[])),
    ];
    let message = resolve_refusal(&twice, 1);
    assert!(message.contains("shard 0 is reported local by 2 peers"), "{message}");
    assert!(resolve_shard_urls(&twice, "c", 1, 2).is_ok(), "unless it is a replica");

    let one_peer = vec![
        peer("http://a", cluster(1, &[(0, "Active")], &[])),
        peer("http://alias", cluster(1, &[(0, "Active")], &[])),
    ];
    assert!(resolve_shard_urls(&one_peer, "c", 1, 1).is_ok(), "two urls of one peer");

    let down = vec![PeerReply {
        url: "http://a".to_string(),
        reply: Err("connection refused".to_string()),
    }];
    let message = resolve_refusal(&down, 1);
    assert!(message.contains("connection refused"), "{message}");
}

#[test]
fn a_report_holds_what_is_out_of_its_place() {
    let mut report = PlacementReport::new(2);
    let ids = vec![PointId::NumId(1), PointId::NumId(2)];
    record_shard(&mut report, 0, &ids, &ids, Some((1, &vec![])));
    assert!(report.is_correct());
    assert_eq!((report.shards_checked, report.ids_checked), (1, 2));

    let held = vec![PointId::NumId(1)];
    let leaked = vec![PointId::NumId(2)];
    record_shard(&mut report, 1, &ids, &held, Some((0, &leaked)));
    assert!(!report.is_correct());
    assert_eq!(report.misplaced, vec![(1, PointId::NumId(2))]);
    assert_eq!(report.leaked, vec![(0, PointId::NumId(2))]);
    assert_eq!((report.shards_checked, report.ids_checked), (2, 4));

    assert!(finish_verify(&report, "state").is_ok());
    assert!(finish_verify(&PlacementReport::new(2), "state").is_err(), "nothing was checked");
}

#[test]
fn the_next_shard_is_the_one_that_must_not_hold_a_point() {
    assert_eq!(other_shard(0, 1), None);
    assert_eq!(other_shard(0, 4), Some(1));
    assert_eq!(other_shard(3, 4), Some(0));
}

#[test]
fn sidecars_and_temporaries_are_not_sampled() {
    assert!(is_sampled("part_0001"));
    assert!(!is_sampled("part_0001.meta"));
    assert!(!is_sampled("part_0001.1.0.tmp"));
}

#[test]
fn ids_are_asked_for_and_read_back() {
    let uuid = 0x550e8400_e29b_41d4_a716_446655440000;
    let ids = vec![PointId::NumId(7), PointId::Uuid(uuid)];
    let body = request_body(&ids);
    assert_eq!(
        body.get("ids").unwrap().to_text(),
        r#"[7,"550e8400-e29b-41d4-a716-446655440000"]"#,
    );
    assert!(
        shard_endpoint("http://a/", "c", 3).starts_with("http://a/collections/c/shards/3/"),
        "{}",
        shard_endpoint("http://a/", "c", 3),
    );

    let found = Json::List(vec![
        object(vec![("id", Json::Unsigned(7))]),
        object(vec![("id", text("550e8400-e29b-41d4-a716-446655440000"))]),
    ]);
    let reply = object(vec![("result", found)]);
    assert_eq!(ids_present_in_shard("e", &reply), Ok(ids));

    let odd = object(vec![(
        "result",
        Json::List(vec![object(vec![("id", Json::Bool(true))])]),
    )]);
    assert!(ids_present_in_shard("e", &odd).is_err());
    assert!(ids_present_in_shard("e", &Json::Null).is_err());
}

#[test]
fn an_install_plan_names_each_shards_peer() {
    let peers = object(vec![(
        "result",
        object(vec![(
            "peers",
            object(vec![
                ("1", object(vec![("uri", text("http://a:6335/"))])),
                ("2", object(vec![("uri", text("http://b:6335/"))])),
            ]),
        )]),
    )]);
    let plan = match install_plan(&cluster(1, &[(0, "Active")], &[(1, 2)]), &peers, "c") {
        Ok(plan) => plan,
        Err(message) => panic!("{message}"),
    };
    assert_eq!(plan.queried_peer, 1);
    let seen: Vec<(u32, u64, &str)> =
        plan.placement.iter().map(|one| (one.shard, one.peer, one.uri.as_str())).collect();
    assert_eq!(seen, vec![(0, 1, "http://a:6335/"), (1, 2, "http://b:6335/")]);
    assert!(install_plan(&Json::Null, &peers, "c").is_err());
}
