use subotai_core::hash::SubotaiHash;
use subotai_core::receptions::{Kind, KindFilter, Receptions, Resources, Rpc, Update};

fn ping_from(sender: &SubotaiHash) -> Update {
    Update::RpcReceived(Rpc { sender_id: sender.clone(), kind: Kind::Ping })
}

fn find_node_from(sender: &SubotaiHash, target: &SubotaiHash) -> Update {
    Update::RpcReceived(Rpc { sender_id: sender.clone(), kind: Kind::FindNode(target.clone()) })
}

fn count(mut receptions: Receptions) -> usize {
    let mut count = 0;
    while receptions.next().is_some() {
        count += 1;
    }
    count
}

#[test]
fn produces_rpcs_but_not_ticks() {
    let alpha = SubotaiHash::random();
    let beta = SubotaiHash::random();
    let mut resources = Resources::new(16);

    let beta_receptions = Receptions::new(&mut resources)
        .during(time::Duration::seconds(1))
        .of_kind(KindFilter::Ping);

    resources.broadcast(Update::Tick);
    resources.broadcast(ping_from(&alpha));
    resources.broadcast(Update::Tick);
    resources.broadcast(ping_from(&alpha));
    resources.broadcast(find_node_from(&alpha, &beta));
    resources.broadcast(Update::Shutdown);

    assert_eq!(count(beta_receptions), 2);
}

#[test]
fn sender_filtering() {
    let alpha = SubotaiHash::random();
    let beta = SubotaiHash::random();
    let receiver = SubotaiHash::random();
    let mut resources = Resources::new(16);

    let mut allowed = Vec::new();
    allowed.push(beta.clone());

    let mut receptions = Receptions::new(&mut resources)
        .during(time::Duration::seconds(1))
        .from_senders(allowed)
        .of_kind(KindFilter::Ping);

    resources.broadcast(ping_from(&alpha));
    resources.broadcast(ping_from(&beta));
    resources.broadcast(find_node_from(&beta, &receiver));
    resources.broadcast(Update::Shutdown);

    let first = receptions.next().expect("one ping should pass the filters");
    assert!(first.sender_id == beta);
    assert!(matches!(first.kind, Kind::Ping));
    assert_eq!(count(receptions), 0);
}

#[test]
fn single_sender_filter() {
    let alpha = SubotaiHash::random();
    let beta = SubotaiHash::random();
    let mut resources = Resources::new(8);

    let receptions = Receptions::new(&mut resources).from(beta.clone());

    resources.broadcast(ping_from(&alpha));
    resources.broadcast(ping_from(&beta));
    resources.broadcast(Update::Shutdown);

    assert_eq!(count(receptions), 1);
}

#[test]
fn drain_filters_a_finite_stream() {
    let alpha = SubotaiHash::random();
    let beta = SubotaiHash::random();
    let mut resources = Resources::new(8);

    let mut receptions = Receptions::new(&mut resources).of_kind(KindFilter::Ping);
    let events = vec![
        ping_from(&alpha),
        Update::Tick,
        find_node_from(&alpha, &beta),
        ping_from(&beta),
        Update::Shutdown,
        // Nothing after the shutdown is yielded.
        ping_from(&alpha),
    ];
    let yielded = receptions.drain(events);
    assert_eq!(yielded.len(), 2);
    assert!(yielded[0].sender_id == alpha);
    assert!(yielded[1].sender_id == beta);
    assert!(matches!(yielded[0].kind, Kind::Ping));
}

#[test]
fn offer_applies_filters_per_event() {
    let alpha = SubotaiHash::random();
    let beta = SubotaiHash::random();
    let mut resources = Resources::new(8);

    let mut receptions = Receptions::new(&mut resources)
        .of_kind(KindFilter::FindNode)
        .from(alpha.clone());

    assert!(receptions.offer(Update::Tick).is_none());
    assert!(receptions.offer(ping_from(&alpha)).is_none());
    assert!(receptions.offer(find_node_from(&beta, &alpha)).is_none());
    let hit = receptions.offer(find_node_from(&alpha, &beta));
    assert!(hit.is_some());
    assert!(hit.unwrap().sender_id == alpha);
}

#[test]
fn channel_close_ends_iteration() {
    let alpha = SubotaiHash::random();
    let mut receptions = {
        let mut resources = Resources::new(4);
        let receptions = Receptions::new(&mut resources);
        resources.broadcast(ping_from(&alpha));
        receptions
        // Dropping the resources closes the channel.
    };
    assert!(receptions.next().is_some());
    assert!(receptions.next().is_none());
}

#[test]
fn shutdown_is_permanent() {
    let alpha = SubotaiHash::random();
    let mut resources = Resources::new(8);
    let mut receptions = Receptions::new(&mut resources);
    resources.broadcast(Update::Shutdown);
    resources.broadcast(ping_from(&alpha));
    // The call that processes the shutdown yields nothing, and every
    // later call returns None: the RPC published after the shutdown is
    // never yielded.
    assert!(receptions.next().is_none());
    assert!(receptions.next().is_none());
    assert!(receptions.next().is_none());
}
