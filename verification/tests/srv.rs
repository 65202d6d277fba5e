//! The greeting server, the shard hash, and clusters.

use v_m_io::reply::BodyRead;
use v_m_io::srv::{gen_shard_index, greet, validate_token, ClusterInfo, ServerAddr};

#[test]
fn hash_test() {
    let servers_count = 5;

    let keys = [
        b"user_id_0001",
        b"user_id_0002",
        b"user_id_0003",
        b"user_id_0004",
    ];

    for key in keys {
        let name = String::from_utf8_lossy(key);
        println!(
            "Key: '{}' -> Server Index: {}",
            name,
            gen_shard_index(key, servers_count)
        );
    }
}

#[test]
fn shard_index_values() {
    assert_eq!(0, gen_shard_index(b"user_id_0001", 5));
    assert_eq!(4, gen_shard_index(b"user_id_0002", 5));
    assert_eq!(2, gen_shard_index(b"user_id_0003", 5));
    assert_eq!(4, gen_shard_index(b"user_id_0004", 5));
    // the whole hash, for lengths that leave bytes behind the last word
    assert_eq!(1579687444, gen_shard_index(b"", 1 << 32));
    assert_eq!(1068870959, gen_shard_index(b"a", 1 << 32));
    assert_eq!(2669840012, gen_shard_index(b"abcdefg", 1 << 32));
    assert_eq!(1649727200, gen_shard_index(b"user_id_0001", 1 << 32));
}

#[test]
fn shard_index_stays_within() {
    assert_eq!(0, gen_shard_index(b"anything", 0));
    for total in 1..40usize {
        assert!(gen_shard_index(b"anything", total) < total);
    }
}

fn v4(a: u8, port: u16) -> ServerAddr {
    ServerAddr::V4 {
        ip: u32::from_be_bytes([10, 0, 0, a]),
        port,
    }
}

fn v6(last: u128, port: u16, flowinfo: u32, scope_id: u32) -> ServerAddr {
    ServerAddr::V6 {
        ip6: last,
        port,
        flowinfo,
        scope_id,
    }
}

fn all_picks(cluster: &ClusterInfo) -> Vec<ServerAddr> {
    (0u32..64)
        .map(|id| cluster.server_for_id(&id.to_le_bytes()))
        .collect()
}

#[test]
fn pick_does_not_depend_on_order() {
    let addrs = [
        v4(1, 80),
        v4(1, 81),
        v4(2, 80),
        v6(1, 80, 0, 0),
        v6(1, 80, 0, 1),
        v6(1, 80, 1, 0),
        v6(2, 1, 0, 0),
    ];
    let mut forward = ClusterInfo::default();
    for addr in addrs {
        forward.add_server(addr);
    }
    let mut backward = ClusterInfo::new();
    for addr in addrs.iter().rev() {
        backward.add_server(*addr);
        // adding a server twice changes nothing
        backward.add_server(*addr);
    }
    assert_eq!(all_picks(&forward), all_picks(&backward));
}

#[test]
fn pick_follows_address_order() {
    let mut cluster = ClusterInfo::new();
    cluster.add_server(v6(0, 0, 0, 0));
    cluster.add_server(v4(200, 9));
    cluster.add_server(v4(3, 9));
    // three servers, listed as 10.0.0.3, 10.0.0.200, [::]
    let sorted = [v4(3, 9), v4(200, 9), v6(0, 0, 0, 0)];
    for id in 0u32..64 {
        let id = id.to_le_bytes();
        assert_eq!(
            sorted[gen_shard_index(&id, 3)],
            cluster.server_for_id(&id)
        );
    }
}

#[test]
fn token_is_validated() {
    let refusal = |header: Option<&[u8]>| {
        let reply = match validate_token(header) {
            Ok(()) => panic!("accepted"),
            Err(reply) => reply,
        };
        assert_eq!(401, reply.status);
        assert!(!reply.plain_text);
        String::from_utf8(reply.body).unwrap()
    };

    assert!(validate_token(Some(b"Bearer your_secure_secret_token")).is_ok());
    assert_eq!("Error: Missing Authorization header.", refusal(None));
    assert_eq!(
        "Error: Invalid header encoding.",
        refusal(Some(b"Bearer \xff"))
    );
    assert_eq!(
        "Error: Authorization format must be 'Bearer <token>'.",
        refusal(Some(b"Basic abc"))
    );
    assert_eq!(
        "Error: Invalid or expired token.",
        refusal(Some(b"Bearer other"))
    );
    assert_eq!(
        "Error: Invalid or expired token.",
        refusal(Some(b"Bearer your_secure_secret_token "))
    );
}

#[test]
fn greeting_names_the_length() {
    let reply = greet(BodyRead::Whole(vec![0; 1234]));
    assert_eq!(200, reply.status);
    assert_eq!(b"Hello over HTTP/2! 1234\n".to_vec(), reply.body);

    let reply = greet(BodyRead::Whole(Vec::new()));
    assert_eq!(b"Hello over HTTP/2! 0\n".to_vec(), reply.body);

    let reply = greet(BodyRead::TooLarge);
    assert_eq!(413, reply.status);
    assert_eq!(
        b"Error: Payload exceeds maximum size limit.".to_vec(),
        reply.body
    );

    let reply = greet(BodyRead::Failed);
    assert_eq!(400, reply.status);
    assert_eq!(
        b"Error: Failed to read stream or malformed payload.".to_vec(),
        reply.body
    );
}
