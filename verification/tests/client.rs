use std::cell::Cell;
use std::rc::Rc;

use confd_client::client::{
    subscription_frame, Build, Connecting, DEFAULT_NAME, DEFAULT_SOCKET_PATH,
};
use confd_client::confd::{read, send};
use confd_client::registry::Registry;
use confd_client::{Client, ClientBuilder, Error, IoFailure, JsonFailure};

/// A connection that counts itself while it is open.
struct Counted {
    name: &'static str,
    open: Rc<Cell<usize>>,
}

impl Counted {
    fn open(name: &'static str, open: &Rc<Cell<usize>>) -> Counted {
        open.set(open.get() + 1);
        Counted { name, open: Rc::clone(open) }
    }
}

impl Drop for Counted {
    fn drop(&mut self) {
        self.open.set(self.open.get() - 1);
    }
}

fn stream_of(texts: &[&str]) -> Vec<u8> {
    let mut wire = Vec::new();
    for text in texts {
        send(&mut wire, text.to_string()).unwrap();
    }
    wire
}

fn parsed(text: &str) -> serde_json::Value {
    serde_json::from_str(text).unwrap()
}

fn paths_and_handlers<C>(client: Client<C, &'static str>) -> Vec<(String, &'static str)> {
    client
        .into_subscriptions()
        .into_iter()
        .map(|entry| (entry.path, entry.value.callback))
        .collect()
}

fn connecting<C, H>(step: Build<C, H>) -> Connecting<C, H> {
    match step {
        Build::Connect(connecting) => connecting,
        Build::Done(_) => panic!("nothing left to connect"),
    }
}

fn done<C, H>(step: Build<C, H>) -> Client<C, H> {
    match step {
        Build::Done(client) => client,
        Build::Connect(connecting) => panic!("still waiting for {}", connecting.path),
    }
}

#[test]
fn registry_insert_replaces_in_place() {
    let mut registry: Registry<u32> = Registry::new();
    assert_eq!(registry.len(), 0);
    assert_eq!(registry.insert("/a", 1), None);
    assert_eq!(registry.insert("/b", 2), None);
    assert_eq!(registry.insert("/c", 3), None);
    assert_eq!(registry.insert("/b/", 20), Some(2));
    assert_eq!(registry.len(), 3);
    assert_eq!(registry.find("/a"), Some(0));
    assert_eq!(registry.find("//b"), Some(1));
    assert_eq!(registry.find("/c/."), Some(2));
    assert_eq!(registry.find("/d"), None);
    assert_eq!(registry.find("b"), None);
    let entries: Vec<(String, u32)> =
        registry.into_entries().into_iter().map(|entry| (entry.path, entry.value)).collect();
    assert_eq!(
        entries,
        vec![("/a".to_string(), 1), ("/b".to_string(), 20), ("/c".to_string(), 3)]
    );
}

#[test]
fn new_client_has_no_subscriptions() {
    let client: Client<Vec<u8>, &str> = Client::new("closure-example", "/tmp/confd.socket");
    assert_eq!(client.client_name(), "closure-example");
    assert_eq!(client.socket_path(), "/tmp/confd.socket");
    assert_eq!(client.len(), 0);
    assert!(client.into_subscriptions().is_empty());
}

#[test]
fn request_is_the_framed_json_object() {
    let client: Client<Vec<u8>, &str> = Client::new("function-example", "/tmp/confd.socket");
    let frame = client.request("/storage/alarms").unwrap();
    let text = "{\"path\":\"/storage/alarms\",\"subscriber\":\"function-example\"}";
    let mut expected = (text.len() as u32).to_be_bytes().to_vec();
    expected.extend_from_slice(text.as_bytes());
    assert_eq!(frame, expected);
    assert_eq!(subscription_frame("/storage/alarms", "function-example").unwrap(), expected);
}

#[test]
fn request_escapes_and_keeps_the_spelling() {
    let frame = subscription_frame("/a//b/\"q\"/", "n\\m\u{e9}").unwrap();
    let (message, taken) = read(&frame).unwrap();
    assert_eq!(taken, frame.len());
    let mut expected = serde_json::Map::new();
    expected.insert("path".to_string(), serde_json::Value::String("/a//b/\"q\"/".to_string()));
    expected.insert("subscriber".to_string(), serde_json::Value::String("n\\m\u{e9}".to_string()));
    assert!(message.is_object());
    assert_eq!(message.into_value(), serde_json::Value::Object(expected));
}

#[test]
fn request_text_is_what_serde_writes() {
    let request = confd_client::SubscriptionRequest {
        path: "/p\n".to_string(),
        subscriber: "me".to_string(),
    };
    assert_eq!(request.to_json().unwrap(), "{\"path\":\"/p\\n\",\"subscriber\":\"me\"}");
}

#[test]
fn subscribe_records_subscriptions_in_order() {
    let mut client: Client<Vec<u8>, &str> = Client::new("c", "/s");
    assert_eq!(client.subscribe("/b", "hb", Ok(vec![1])), Ok(()));
    assert_eq!(client.subscribe("/a", "ha", Ok(vec![2])), Ok(()));
    assert_eq!(client.len(), 2);
    let subscriptions = client.into_subscriptions();
    assert_eq!(subscriptions[0].path, "/b");
    assert_eq!(subscriptions[0].value.socket, vec![1]);
    assert_eq!(subscriptions[0].value.callback, "hb");
    assert_eq!(subscriptions[1].path, "/a");
    assert_eq!(subscriptions[1].value.socket, vec![2]);
    assert_eq!(subscriptions[1].value.callback, "ha");
}

#[test]
fn resubscribe_replaces_the_subscription() {
    let mut client: Client<Vec<u8>, &str> = Client::new("c", "/s");
    client.subscribe("/p", "h1", Ok(vec![1])).unwrap();
    client.subscribe("/p", "h2", Ok(vec![2])).unwrap();
    assert_eq!(client.len(), 1);
    let subscriptions = client.into_subscriptions();
    assert_eq!(subscriptions.len(), 1);
    assert_eq!(subscriptions[0].path, "/p");
    assert_eq!(subscriptions[0].value.callback, "h2");
    assert_eq!(subscriptions[0].value.socket, vec![2]);
}

#[test]
fn resubscribe_under_another_spelling_replaces_too() {
    let mut client: Client<Vec<u8>, &str> = Client::new("c", "/s");
    client.subscribe("/x", "hx", Ok(vec![0])).unwrap();
    client.subscribe("/p/q", "h1", Ok(vec![1])).unwrap();
    client.subscribe("/y", "hy", Ok(vec![0])).unwrap();
    client.subscribe("//p/./q/", "h2", Ok(vec![2])).unwrap();
    assert_eq!(
        paths_and_handlers(client),
        vec![("/x".to_string(), "hx"), ("/p/q".to_string(), "h2"), ("/y".to_string(), "hy")]
    );
}

#[test]
fn resubscribe_closes_the_superseded_connection() {
    let open = Rc::new(Cell::new(0));
    let mut client: Client<Counted, &str> = Client::new("c", "/s");
    client.subscribe("/p", "h1", Ok(Counted::open("first", &open))).unwrap();
    assert_eq!(open.get(), 1);
    client.subscribe("/p", "h2", Ok(Counted::open("second", &open))).unwrap();
    assert_eq!(open.get(), 1);
    let subscriptions = client.into_subscriptions();
    assert_eq!(subscriptions[0].value.socket.name, "second");
}

#[test]
fn failed_subscribe_records_nothing() {
    let mut client: Client<Vec<u8>, &str> = Client::new("c", "/s");
    client.subscribe("/a", "ha", Ok(vec![1])).unwrap();
    let refused = Error::IOError(IoFailure::ConnectionRefused);
    assert_eq!(client.subscribe("/b", "hb", Err(refused)), Err(refused));
    assert_eq!(client.len(), 1);
    let broken = Error::IOError(IoFailure::BrokenPipe);
    assert_eq!(client.subscribe("/a", "other", Err(broken)), Err(broken));
    assert_eq!(paths_and_handlers(client), vec![("/a".to_string(), "ha")]);
}

#[test]
fn listen_delivers_objects_to_their_subscription() {
    let mut client: Client<Vec<u8>, &str> = Client::new("c", "/s");
    client.subscribe("/p", "h", Ok(stream_of(&["42", "[1,2]", "{\"a\":1}"]))).unwrap();
    let finished = client.listen().unwrap();
    assert_eq!(finished.len(), 1);
    let only = finished.into_iter().next().unwrap();
    assert_eq!(only.path, "/p");
    assert_eq!(only.callback, "h");
    assert_eq!(only.run.error, Error::IOError(IoFailure::UnexpectedEof));
    let delivered: Vec<serde_json::Value> =
        only.run.delivered.into_iter().map(|message| message.into_value()).collect();
    assert_eq!(delivered, vec![parsed("{\"a\":1}")]);
}

#[test]
fn listen_survives_the_failure_of_one_subscription() {
    let mut client: Client<Vec<u8>, &str> = Client::new("c", "/s");
    client.subscribe("/a", "ha", Ok(Vec::new())).unwrap();
    client.subscribe("/b", "hb", Ok(stream_of(&["{\"note\":\"for b\"}"]))).unwrap();
    let finished = client.listen().unwrap();
    assert_eq!(finished.len(), 2);
    assert_eq!(finished[0].path, "/a");
    assert!(finished[0].run.delivered.is_empty());
    assert_eq!(finished[0].run.error, Error::IOError(IoFailure::UnexpectedEof));
    assert_eq!(finished[1].path, "/b");
    assert_eq!(finished[1].callback, "hb");
    assert_eq!(finished[1].run.delivered.len(), 1);
    assert_eq!(finished[1].run.delivered[0].value(), &parsed("{\"note\":\"for b\"}"));
}

#[test]
fn listen_keeps_a_bad_payload_to_its_own_subscription() {
    let mut client: Client<Vec<u8>, &str> = Client::new("c", "/s");
    client.subscribe("/bad", "h1", Ok(stream_of(&["{\"n\":1}", "]", "{\"n\":2}"]))).unwrap();
    client.subscribe("/good", "h2", Ok(stream_of(&["{\"n\":3}", "{\"n\":4}"]))).unwrap();
    let finished = client.listen().unwrap();
    assert_eq!(finished[0].run.delivered.len(), 1);
    assert_eq!(finished[0].run.error, Error::JsonError(JsonFailure { line: 1, column: 1 }));
    assert_eq!(finished[1].run.delivered.len(), 2);
    assert_eq!(finished[1].run.error, Error::IOError(IoFailure::UnexpectedEof));
}

#[test]
fn listen_without_subscriptions_returns_at_once() {
    let client: Client<Vec<u8>, &str> = Client::new("c", "/s");
    assert!(client.listen().unwrap().is_empty());
}

#[test]
fn builder_defaults() {
    let client: Client<Vec<u8>, &str> = done(ClientBuilder::default().build());
    assert_eq!(client.client_name(), "confd-rs-client");
    assert_eq!(client.socket_path(), "/var/confd/service-interface.socket");
    assert_eq!(DEFAULT_NAME, "confd-rs-client");
    assert_eq!(DEFAULT_SOCKET_PATH, "/var/confd/service-interface.socket");
    assert_eq!(client.len(), 0);
}

#[test]
fn builder_overrides_name_and_socket_path() {
    let builder: ClientBuilder<&str> = ClientBuilder::default()
        .with_name("mine")
        .with_socket_path("/run/confd.socket".to_string())
        .with_name("renamed");
    let client: Client<Vec<u8>, &str> = done(builder.build());
    assert_eq!(client.client_name(), "renamed");
    assert_eq!(client.socket_path(), "/run/confd.socket");
}

#[test]
fn builder_later_handler_replaces_earlier() {
    let builder = ClientBuilder::default()
        .with_subscription("/a", "a1")
        .with_subscription("/b", "b1")
        .with_subscription("/a/", "a2");
    let first: Connecting<Vec<u8>, &str> = connecting(builder.build());
    assert_eq!(first.path, "/a");
    assert_eq!(first.callback, "a2");
    assert_eq!(first.later.len(), 1);
    let second = connecting(first.advance(Ok(vec![1])).unwrap());
    assert_eq!(second.path, "/b");
    assert_eq!(second.callback, "b1");
    let client = done(second.advance(Ok(vec![2])).unwrap());
    assert_eq!(
        paths_and_handlers(client),
        vec![("/a".to_string(), "a2"), ("/b".to_string(), "b1")]
    );
}

#[test]
fn build_subscribes_in_insertion_order() {
    let builder = ClientBuilder::default()
        .with_name("ordered")
        .with_subscription("/z", "hz")
        .with_subscription("/a", "ha")
        .with_subscription("/m", "hm");
    let mut step: Build<Vec<u8>, &str> = builder.build();
    let mut asked = Vec::new();
    let client = loop {
        match step {
            Build::Done(client) => break client,
            Build::Connect(connecting) => {
                let frame = connecting.request().unwrap();
                assert_eq!(frame, subscription_frame(&connecting.path, "ordered").unwrap());
                asked.push(connecting.path.clone());
                let socket = vec![asked.len() as u8];
                step = connecting.advance(Ok(socket)).unwrap();
            }
        }
    };
    assert_eq!(asked, ["/z", "/a", "/m"]);
    let subscriptions = client.into_subscriptions();
    assert_eq!(subscriptions.len(), 3);
    assert_eq!(subscriptions[0].path, "/z");
    assert_eq!(subscriptions[0].value.socket, vec![1]);
    assert_eq!(subscriptions[1].path, "/a");
    assert_eq!(subscriptions[1].value.socket, vec![2]);
    assert_eq!(subscriptions[2].path, "/m");
    assert_eq!(subscriptions[2].value.callback, "hm");
}

#[test]
fn build_fails_fast_and_closes_what_it_opened() {
    let open = Rc::new(Cell::new(0));
    let builder = ClientBuilder::default()
        .with_subscription("/a", "ha")
        .with_subscription("/b", "hb")
        .with_subscription("/c", "hc");
    let first: Connecting<Counted, &str> = connecting(builder.build());
    assert_eq!(first.path, "/a");
    let second = connecting(first.advance(Ok(Counted::open("a", &open))).unwrap());
    assert_eq!(second.path, "/b");
    assert_eq!(second.client.len(), 1);
    assert_eq!(open.get(), 1);
    let refused = Error::IOError(IoFailure::ConnectionRefused);
    let outcome = second.advance(Err(refused));
    assert!(matches!(outcome, Err(error) if error == refused));
    assert_eq!(open.get(), 0);
}

#[test]
fn build_fails_on_the_first_subscription() {
    let builder = ClientBuilder::default().with_subscription("/a", "ha");
    let first: Connecting<Vec<u8>, &str> = connecting(builder.build());
    let missing = Error::IOError(IoFailure::NotFound);
    assert!(matches!(first.advance(Err(missing)), Err(error) if error == missing));
}
