use spot_match::catalog::{assignments, ConfigSymbolMatching, StartupError};
use spot_match::config::{CatalogDb, Config, ConfigError, KafkaConfig, MysqlConfig, PostgresqlConfig};
use spot_match::engine::{Engine, RetryPolicy, Step, INITIAL_BACKOFF_MS, MAX_BACKOFF_MS};
use spot_match::journal::{Command, Event, LogType, SpotLog};
use spot_match::key::{key_order_id, order_key};
use spot_match::order::{Order, OrderType, RecordError, Side};
use spot_match::topic::{group_id, symbol_name, topic_name, Topic};

fn order(id: u64, side: Side, price: u64, quantity: u64) -> Order {
    Order { id, user_id: 1, price, quantity, timestamp: 0, order_type: OrderType::Limit, side }
}

#[test]
fn record_tags_decode() {
    let o = Order::from_record(5, 6, 100, 7, 8, 1, 1).unwrap();
    assert_eq!(o, Order { id: 5, user_id: 6, price: 100, quantity: 7, timestamp: 8, order_type: OrderType::Market, side: Side::Sell });
    let o = Order::from_record(5, 6, 100, 7, 8, 0, 0).unwrap();
    assert_eq!(o.order_type, OrderType::Limit);
    assert_eq!(o.side, Side::Buy);
    assert_eq!(Order::from_record(1, 1, 1, 1, 1, 2, 0), Err(RecordError::InvalidOrderType));
    assert_eq!(Order::from_record(1, 1, 1, 1, 1, 0, 9), Err(RecordError::InvalidSide));
    assert_eq!(Side::Sell.tag(), 1);
    assert_eq!(OrderType::Market.tag(), 1);
    assert_eq!(Side::Buy.opposite(), Side::Sell);
    assert_eq!(Side::Buy.as_str(), "Buy");
    assert_eq!(OrderType::Limit.as_str(), "Limit");
}

#[test]
fn messages_become_commands() {
    let o = order(3, Side::Buy, 100, 2);
    let log = SpotLog { log_type: LogType::NewOrder, seq_id: 1, order: Some(o), trade: None };
    assert_eq!(log.to_command(), Some(Command::NewOrder(o)));
    let log = SpotLog { log_type: LogType::CancelOrder, seq_id: 1, order: Some(o), trade: None };
    assert_eq!(log.to_command(), Some(Command::CancelOrder { id: 3, side: Side::Buy, price: 100 }));
    let log = SpotLog { log_type: LogType::Trade, seq_id: 1, order: Some(o), trade: None };
    assert_eq!(log.to_command(), None);
    let log = SpotLog { log_type: LogType::NewOrder, seq_id: 1, order: None, trade: None };
    assert_eq!(log.to_command(), None);
}

#[test]
fn topic_names() {
    assert_eq!(topic_name("BTC", "USDT", Topic::SpotNewOrder), "BTC_USDT_SpotNewOrder");
    assert_eq!(topic_name("ETH", "BTC", Topic::SpotMatchResult), "ETH_BTC_SpotMatchResult");
    assert_eq!(group_id("BTC", "USDT"), "BTC_USDT_group");
    assert_eq!(symbol_name("BTC", "USDT"), "BTC/USDT");
    assert_eq!(Topic::SpotNewOrder.as_str(), "SpotNewOrder");
}

fn config(mysql: bool, pg: bool) -> Config {
    Config {
        kafka_config: KafkaConfig { brokers: "localhost:9092".to_string() },
        mysql_config: if mysql { Some(MysqlConfig { url: "mysql://m".to_string() }) } else { None },
        postgresql_config: if pg { Some(PostgresqlConfig { url: "postgres://p".to_string() }) } else { None },
    }
}

#[test]
fn exactly_one_catalog_database() {
    assert_eq!(config(false, false).catalog(), Err(ConfigError::MissingCatalog));
    assert_eq!(config(true, true).catalog(), Err(ConfigError::AmbiguousCatalog));
    assert_eq!(config(true, false).catalog(), Ok((CatalogDb::Mysql, "mysql://m".to_string())));
    assert_eq!(config(false, true).catalog(), Ok((CatalogDb::Postgresql, "postgres://p".to_string())));
    let shared = config(false, true).global();
    assert_eq!(shared.kafka_config.brokers, "localhost:9092");
}

fn row(id: i32, base: &str, is_open: i32, server: &str) -> ConfigSymbolMatching {
    ConfigSymbolMatching {
        id,
        base: base.to_string(),
        quote: "USDT".to_string(),
        is_open,
        server: server.to_string(),
        ctime: 0,
        mtime: 0,
    }
}

#[test]
fn host_runs_its_open_pairs() {
    let rows = vec![row(1, "BTC", 1, "10.0.0.1"), row(2, "ETH", 0, "10.0.0.1"), row(3, "SOL", 1, "10.0.0.2"), row(4, "XRP", 1, "10.0.0.3")];
    let ips = vec!["10.0.0.1".to_string(), "10.0.0.3".to_string()];
    let got = assignments(&rows, &ips).unwrap();
    let ids: Vec<i32> = got.iter().map(|r| r.id).collect();
    assert_eq!(ids, vec![1, 4]);
    assert_eq!(got[1].base, "XRP");
    assert_eq!(assignments(&rows, &vec![]).err(), Some(StartupError::NoAddresses));
    assert_eq!(assignments(&rows, &vec!["10.9.9.9".to_string()]).err(), Some(StartupError::NoAssignments));
}

#[test]
fn backoff_doubles_up_to_cap() {
    let p = RetryPolicy::standard();
    assert_eq!(p.next_backoff(1000), 2000);
    assert_eq!(p.next_backoff(16000), 30000);
    assert_eq!(p.next_backoff(30000), 30000);
    assert_eq!(p.next_backoff(u64::MAX), 30000);
    assert_eq!(p.next_backoff(0), 0);
}

#[test]
fn engine_decisions() {
    let mut e = Engine::new("BTC/USDT".to_string(), "BTC".to_string(), "USDT".to_string());
    assert_eq!(e.symbol(), "BTC/USDT");
    assert_eq!(e.input_topic(), "BTC_USDT_SpotNewOrder");
    assert_eq!(e.output_topic(), "BTC_USDT_SpotMatchResult");
    assert_eq!(e.group_id(), "BTC_USDT_group");
    assert!(e.can_apply());
    let o = order(9, Side::Sell, 100, 2);
    let log = SpotLog { log_type: LogType::NewOrder, seq_id: 1, order: Some(o), trade: None };
    match e.on_message(Some(log), 5) {
        Step::Publish { key, events } => {
            assert_eq!(key, 9);
            assert_eq!(events.len(), 2);
            assert_eq!(events[1].event, Event::OrderRested { id: 9, side: Side::Sell, price: 100, quantity: 2 });
        }
        other => panic!("unexpected {:?}", other),
    }
    assert_eq!(e.order_book().len(), 1);
    assert!(matches!(e.on_message(None, 5), Step::Retry));
    assert!(matches!(e.on_message(None, 5), Step::Retry));
    assert!(matches!(e.on_message(None, 5), Step::DeadLetter));
    assert!(matches!(e.on_message(None, 5), Step::Retry));
    let log = SpotLog { log_type: LogType::Trade, seq_id: 1, order: None, trade: None };
    assert!(matches!(e.on_message(Some(log), 5), Step::Skip));
    match e.on_transport_error() {
        Step::Reconnect { delay_ms } => assert_eq!(delay_ms, INITIAL_BACKOFF_MS),
        other => panic!("unexpected {:?}", other),
    }
    match e.on_transport_error() {
        Step::Reconnect { delay_ms } => assert_eq!(delay_ms, 2 * INITIAL_BACKOFF_MS),
        other => panic!("unexpected {:?}", other),
    }
    for _ in 0..10 {
        e.on_transport_error();
    }
    match e.on_transport_error() {
        Step::Reconnect { delay_ms } => assert_eq!(delay_ms, MAX_BACKOFF_MS),
        other => panic!("unexpected {:?}", other),
    }
}

#[test]
fn message_keys_are_big_endian() {
    assert_eq!(order_key(0x0102030405060708), vec![1, 2, 3, 4, 5, 6, 7, 8]);
    assert_eq!(order_key(60), vec![0, 0, 0, 0, 0, 0, 0, 60]);
    for id in [0u64, 1, 255, 256, 0xdead_beef, u64::MAX] {
        assert_eq!(key_order_id(&order_key(id)), Some(id));
    }
    assert_eq!(key_order_id(&[1, 2, 3]), None);
}

#[test]
fn record_round_trip() {
    for o in [order(1, Side::Buy, 5, 6), Order { order_type: OrderType::Market, ..order(2, Side::Sell, 0, 3) }] {
        let back = Order::from_record(o.id, o.user_id, o.price, o.quantity, o.timestamp, o.order_type.tag(), o.side.tag());
        assert_eq!(back, Ok(o));
    }
}
