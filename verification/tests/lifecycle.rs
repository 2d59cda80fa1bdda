use log_replication::container::{
    build_public_key_from_hex, ContainerPhase, P2PandaContainer,
};
use log_replication::crypto::{derive_public_key, generate_signing_key, hex_encode};
use log_replication::events::{
    EventHandler, LoResEvent, LoResEventHeader, LoResEventPayload, NodeAnnounced, SiteAnnounced,
    SiteEvent, SiteEventHeader, SiteEventPayload,
};
use log_replication::repos::{
    NodesRepo, Region, SitesRepo, ThisNodeRepo, ThisPandaNodeRepo, ThisRegionRepo,
};
use log_replication::topic::SiteManagerTopic;

#[test]
fn container_phases() {
    let mut container = P2PandaContainer::new();
    assert_eq!(container.phase(), ContainerPhase::Unconfigured);

    // not configured: nothing to launch, phase unchanged
    assert!(container.start().is_none());
    assert_eq!(container.phase(), ContainerPhase::Unconfigured);

    let sk = generate_signing_key();
    container.set_private_key(sk.clone());
    assert!(container.start().is_none());

    container.set_network_name("site_management".to_string());
    let plan = container.start().unwrap();
    assert_eq!(plan.private_key, sk);
    assert_eq!(plan.network_name, "site_management");
    assert!(plan.bootstrap_node_id.is_none());
    assert_eq!(container.phase(), ContainerPhase::Running);

    // already running: no second launch
    assert!(container.start().is_none());
    assert_eq!(container.phase(), ContainerPhase::Running);

    container.shutdown();
    assert_eq!(container.phase(), ContainerPhase::Configured);
    // configured again: a restart hands out a new plan
    assert!(container.start().is_some());
    assert_eq!(container.phase(), ContainerPhase::Running);

    let params = container.get_params();
    assert_eq!(params.private_key.unwrap(), sk);
    assert_eq!(params.network_name.unwrap(), "site_management");
}

#[test]
fn public_key_from_hex() {
    let sk = generate_signing_key();
    let pk = derive_public_key(&sk);
    let hex = hex_encode(&pk);
    let back = build_public_key_from_hex(&hex).unwrap();
    assert_eq!(back, pk);

    // too short, not hex, wrong length
    assert!(build_public_key_from_hex("beef").is_none());
    assert!(build_public_key_from_hex("zz").is_none());
    let odd = hex_encode(&vec![1u8; 16]);
    assert!(build_public_key_from_hex(&odd).is_none());
}

#[test]
fn private_key_from_hex() {
    let sk = generate_signing_key();
    let hex = hex_encode(&sk);
    let back = ThisPandaNodeRepo::build_private_key_from_hex(&hex).unwrap();
    assert_eq!(back, sk);
    assert!(ThisPandaNodeRepo::build_private_key_from_hex("beef").is_none());
    assert!(ThisPandaNodeRepo::build_private_key_from_hex("not hex").is_none());
}

#[test]
fn node_record_from_announcement() {
    let handler = EventHandler::new();
    let event = LoResEvent::new(
        LoResEventHeader {
            author_node_id: "node-1".to_string(),
        },
        LoResEventPayload::NodeAnnounced(NodeAnnounced {
            name: "North".to_string(),
        }),
    );
    let record = handler.node_record_for(event);
    assert_eq!(record.id, "node-1");
    assert_eq!(record.name, "North");
}

#[test]
fn site_event_pairs_header_and_payload() {
    let event = SiteEvent::new(
        SiteEventHeader {
            author_node_id: "node-2".to_string(),
        },
        SiteEventPayload::SiteAnnounced(SiteAnnounced {
            name: "South".to_string(),
        }),
    );
    assert_eq!(event.header.author_node_id, "node-2");
    let SiteEventPayload::SiteAnnounced(announced) = event.payload;
    assert_eq!(announced.name, "South");
}

#[test]
fn repo_handles() {
    assert_eq!(NodesRepo::init(), NodesRepo {});
    assert_eq!(SitesRepo::init(), SitesRepo {});
    assert_eq!(ThisNodeRepo::init(), ThisNodeRepo {});
    assert_eq!(ThisPandaNodeRepo::init(), ThisPandaNodeRepo {});
    assert_eq!(ThisRegionRepo::init(), ThisRegionRepo {});
    assert!(ThisRegionRepo::creation_allowed(&None));
    assert!(!ThisRegionRepo::creation_allowed(&Some(Region {
        network_id: "n".to_string(),
    })));
}

#[test]
fn topic_derivation_is_deterministic() {
    let a = SiteManagerTopic::new("site_management");
    let b = SiteManagerTopic::new("site_management");
    let c = SiteManagerTopic::new("another_topic");
    assert_eq!(a.id(), b.id());
    assert_ne!(a.id(), c.id());
    assert_eq!(a.id().len(), 32);
    assert_eq!(a.name(), "site_management");
}
